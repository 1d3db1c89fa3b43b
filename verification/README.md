# Laptop cooler

A fan controller for a laptop cooler, and the agent on the laptop that tells it
how fast to turn. The agent reads temperatures, follows a fan policy and sends
packets over the network. The controller guards what it is told, drives the fan
and keeps its Wi-Fi configuration in flash memory.

`src/` is the library that both programs share, with its behaviour stated in
contracts and proved with Verus:

- `control`: the packets, and what the controller remembers of them
- `config`, `checksum`, `config_storage`: the stored configuration
- `provisioning`, `controller`: the setup page, and what the controller decides
- `policy`: from temperatures to duties
- `agent`, `agent_config`, `sensors`: the course of the agent, its
  configuration file and its sensors
- `text`, `numbers`, `bounded`: text, numbers and texts of bounded length
- `outside`: what is taken on trust of `core` and of the `heapless` crate

Functions named `law_..` state what holds of the library as a whole.

`app/` holds the two programs around the library: the agent, and the firmware
for an ESP32 board. `tests/` runs the library on examples.
