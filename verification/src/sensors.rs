//! The temperature sensors of the host.
use vstd::prelude::*;
use vstd::string::*;

use crate::numbers;
use crate::numbers::parse_i32;
use crate::text;
use crate::text::{chars_of, ends_with, same_text, starts_with, trim};

verus! {

/// The least temperature that is taken for a measurement.
pub const MIN_PLAUSIBLE_MILLI_C: i32 = -20_000;

/// The greatest temperature that is taken for a measurement.
pub const MAX_PLAUSIBLE_MILLI_C: i32 = 150_000;

/// Why no temperature could be had. The index says which sensor is at fault.
#[derive(Clone, Copy, Debug, PartialEq, Eq, Structural)]
pub enum TemperatureError {
    Unreadable(usize),
    NotANumber(usize),
    Implausible(usize, i32),
    NoSensor,
}

/// Whether the device of this name measures the temperature of a processor.
pub open spec fn is_supported(name: Seq<char>) -> bool {
    ||| name == "amdgpu"@
    ||| name == "coretemp"@
    ||| name == "i915"@
    ||| name == "k10temp"@
    ||| name == "nvidia"@
    ||| name == "nouveau"@
    ||| name == "zenpower"@
}

/// `text` without any `suffix` that it ends with.
pub open spec fn stripped(text: Seq<char>, suffix: Seq<char>) -> Seq<char>
    decreases text.len(),
{
    if 0 < suffix.len() && suffix.is_suffix_of(text) {
        stripped(text.take(text.len() - suffix.len()), suffix)
    } else {
        text
    }
}

/// What the files of one measurement begin with, by the name of the file that
/// holds it.
pub open spec fn prefix_of(file_name: Seq<char>) -> Option<Seq<char>> {
    if "temp"@.is_prefix_of(file_name) && "_input"@.is_suffix_of(file_name) {
        Some(stripped(file_name, "_input"@))
    } else {
        None
    }
}

/// The measurement that a file holds, by its contents.
pub open spec fn measurement(contents: Seq<char>) -> Option<int> {
    numbers::signed_number(text::trimmed(contents), i32::MIN as int, i32::MAX as int)
}

/// Whether the contents of a file hold a temperature that can be.
pub open spec fn is_plausible(contents: Option<Seq<char>>) -> bool {
    contents is Some && measurement(contents->0) is Some && MIN_PLAUSIBLE_MILLI_C <= measurement(
        contents->0,
    )->0 <= MAX_PLAUSIBLE_MILLI_C
}

/// The contents of files, where they could be read.
pub open spec fn contents_of(readings: Seq<Option<String>>) -> Seq<Option<Seq<char>>> {
    readings.map_values(
        |reading: Option<String>|
            match reading {
                Some(contents) => Some(contents@),
                None => None,
            },
    )
}

/// Whether `result` is the greatest of the measurements, or the first fault
/// among them.
pub open spec fn is_maximum(readings: Seq<Option<Seq<char>>>, result: Result<i32, TemperatureError>) -> bool {
    match result {
        Ok(maximum) => {
            &&& forall|i: int| 0 <= i < readings.len() ==> is_plausible(#[trigger] readings[i])
            &&& forall|i: int| 0 <= i < readings.len() ==> measurement((#[trigger] readings[i])->0)->0 <= maximum
            &&& exists|i: int| 0 <= i < readings.len() && measurement((#[trigger] readings[i])->0)->0 == maximum
        },
        Err(TemperatureError::NoSensor) => readings.len() == 0,
        Err(TemperatureError::Unreadable(index)) => {
            &&& is_first_fault(readings, index as int)
            &&& readings[index as int] is None
        },
        Err(TemperatureError::NotANumber(index)) => {
            &&& is_first_fault(readings, index as int)
            &&& readings[index as int] is Some
            &&& measurement(readings[index as int]->0) is None
        },
        Err(TemperatureError::Implausible(index, value)) => {
            &&& is_first_fault(readings, index as int)
            &&& readings[index as int] is Some
            &&& measurement(readings[index as int]->0) == Some(value as int)
        },
    }
}

/// Whether the reading at `index` is the first that is no measurement.
pub open spec fn is_first_fault(readings: Seq<Option<Seq<char>>>, index: int) -> bool {
    &&& 0 <= index < readings.len()
    &&& !is_plausible(readings[index])
    &&& forall|i: int| 0 <= i < index ==> is_plausible(#[trigger] readings[i])
}

/// The name of a device, by the contents of the file that holds it, where the
/// device measures the temperature of a processor.
pub fn supported_device<'a>(contents: &'a str) -> (name: Option<&'a str>)
    ensures
        match name {
            Some(name) => name@ == text::trimmed(contents@) && is_supported(name@),
            None => !is_supported(text::trimmed(contents@)),
        },
{
    let name = trim(contents);
    if same_text(name, "amdgpu") || same_text(name, "coretemp") || same_text(name, "i915") || same_text(
        name,
        "k10temp",
    ) || same_text(name, "nvidia") || same_text(name, "nouveau") || same_text(name, "zenpower") {
        Some(name)
    } else {
        None
    }
}

/// What the files of one measurement begin with, by the name of the file that
/// holds it.
pub fn sensor_prefix<'a>(file_name: &'a str) -> (prefix: Option<&'a str>)
    ensures
        match prefix {
            Some(prefix) => prefix_of(file_name@) == Some(prefix@),
            None => prefix_of(file_name@) is None,
        },
{
    if !starts_with(file_name, "temp") || !ends_with(file_name, "_input") {
        return None;
    }
    proof {
        reveal_strlit("_input");
    }
    let mut length: usize = chars_of(file_name).len();
    let mut prefix = file_name;
    while ends_with(prefix, "_input")
        invariant
            "_input"@.len() == 6,
            length == prefix@.len(),
            stripped(prefix@, "_input"@) == stripped(file_name@, "_input"@),
        decreases length,
    {
        let ghost longer = prefix@;
        prefix = prefix.substring_char(0, length - 6);
        assert(prefix@ =~= longer.take(longer.len() - 6));
        length -= 6;
    }
    Some(prefix)
}

/// The name of the file that may hold the label of a measurement.
pub fn label_file_name(prefix: &str) -> (name: String)
    ensures
        name@ == prefix@ + "_label"@,
{
    let mut name = prefix.to_owned();
    name.append("_label");
    name
}

/// The label of a measurement: what its file says, or else the prefix.
pub fn sensor_label<'a>(contents: Option<&'a str>, prefix: &'a str) -> (label: &'a str)
    ensures
        label@ == match contents {
            Some(contents) => text::trimmed(contents@),
            None => prefix@,
        },
{
    match contents {
        Some(contents) => trim(contents),
        None => prefix,
    }
}

/// The greatest of the temperatures that the sensors report, by the contents
/// of their files.
pub fn maximum_temperature(readings: &Vec<Option<String>>) -> (result: Result<i32, TemperatureError>)
    ensures
        is_maximum(contents_of(readings@), result),
{
    let ghost all = contents_of(readings@);
    let mut maximum: Option<i32> = None;
    let mut i: usize = 0;
    while i < readings.len()
        invariant
            i <= readings.len(),
            all == contents_of(readings@),
            maximum is None <==> i == 0,
            forall|j: int| 0 <= j < i ==> is_plausible(#[trigger] all[j]),
            maximum matches Some(maximum) ==> forall|j: int|
                0 <= j < i ==> measurement((#[trigger] all[j])->0)->0 <= maximum,
            maximum matches Some(maximum) ==> exists|j: int|
                0 <= j < i && measurement((#[trigger] all[j])->0)->0 == maximum,
        decreases readings.len() - i,
    {
        assert(all[i as int] == match readings[i as int] {
            Some(contents) => Some(contents@),
            None => None,
        });
        let contents = match &readings[i] {
            Some(contents) => contents,
            None => {
                return Err(TemperatureError::Unreadable(i));
            },
        };
        let value: i32 = match parse_i32(trim(contents.as_str())) {
            Some(value) => value,
            None => {
                return Err(TemperatureError::NotANumber(i));
            },
        };
        if value < MIN_PLAUSIBLE_MILLI_C || value > MAX_PLAUSIBLE_MILLI_C {
            return Err(TemperatureError::Implausible(i, value));
        }
        maximum = match maximum {
            Some(current) if current >= value => Some(current),
            _ => Some(value),
        };
        i += 1;
    }
    match maximum {
        Some(maximum) => Ok(maximum),
        None => Err(TemperatureError::NoSensor),
    }
}

/// Where each file could be read and holds a number from -20000 to 150000,
/// the greatest of them is reported, and it is the only answer.
pub proof fn law_greatest_is_reported(
    readings: Seq<Option<Seq<char>>>,
    values: Seq<int>,
    result: Result<i32, TemperatureError>,
    i: int,
)
    requires
        is_maximum(readings, result),
        readings.len() == values.len(),
        forall|j: int|
            0 <= j < readings.len() ==> (#[trigger] readings[j]) is Some && numbers::signed_number(
                text::trimmed(readings[j]->0),
                -0x8000_0000,
                0x7fff_ffff,
            ) == Some(values[j]) && -20_000 <= values[j] <= 150_000,
        0 <= i < readings.len(),
        forall|j: int| 0 <= j < readings.len() ==> #[trigger] values[j] <= values[i],
    ensures
        result == Ok::<i32, TemperatureError>(values[i] as i32),
        values[i] as i32 == values[i],
{
    assert forall|j: int| 0 <= j < readings.len() implies is_plausible(#[trigger] readings[j]) && measurement(
        readings[j]->0,
    ) == Some(values[j]) by {
        assert(readings[j] is Some);
    }
    if let Ok(maximum) = result {
        assert(measurement(readings[i]->0)->0 <= maximum);
        let k = choose|k: int| 0 <= k < readings.len() && measurement((#[trigger] readings[k])->0)->0 == maximum;
        assert(values[k] <= values[i]);
    }
}

/// The first file that could not be read, holds no number, or holds one below
/// -20000 or above 150000 is told, whatever comes behind it. Without files, that
/// is told.
pub proof fn law_first_fault_is_told(
    readings: Seq<Option<Seq<char>>>,
    result: Result<i32, TemperatureError>,
    i: int,
)
    requires
        is_maximum(readings, result),
        readings.len() <= usize::MAX,
    ensures
        readings.len() == 0 ==> result == Err::<i32, TemperatureError>(TemperatureError::NoSensor),
        0 <= i < readings.len() && (forall|j: int|
            0 <= j < i ==> (#[trigger] readings[j]) is Some && numbers::signed_number(
                text::trimmed(readings[j]->0),
                -0x8000_0000,
                0x7fff_ffff,
            ) is Some && -20_000 <= numbers::signed_number(
                text::trimmed(readings[j]->0),
                -0x8000_0000,
                0x7fff_ffff,
            )->0 <= 150_000) ==> {
            let number = numbers::signed_number(text::trimmed(readings[i]->0), -0x8000_0000, 0x7fff_ffff);
            &&& readings[i] is None ==> result == Err::<i32, TemperatureError>(
                TemperatureError::Unreadable(i as usize),
            )
            &&& readings[i] is Some && number is None ==> result == Err::<i32, TemperatureError>(
                TemperatureError::NotANumber(i as usize),
            )
            &&& readings[i] is Some && number is Some && (number->0 < -20_000 || number->0 > 150_000) ==> result
                == Err::<i32, TemperatureError>(TemperatureError::Implausible(i as usize, number->0 as i32))
        },
{
    if 0 <= i < readings.len() && forall|j: int|
        0 <= j < i ==> (#[trigger] readings[j]) is Some && numbers::signed_number(
            text::trimmed(readings[j]->0),
            -0x8000_0000,
            0x7fff_ffff,
        ) is Some && -20_000 <= numbers::signed_number(
            text::trimmed(readings[j]->0),
            -0x8000_0000,
            0x7fff_ffff,
        )->0 <= 150_000 {
        assert forall|j: int| 0 <= j < i implies is_plausible(#[trigger] readings[j]) by {
            assert(readings[j] is Some);
        }
        if !is_plausible(readings[i]) {
            match result {
                Ok(_) => {
                    assert(is_plausible(readings[i]));
                },
                Err(TemperatureError::NoSensor) => {},
                Err(TemperatureError::Unreadable(index)) => {
                    lemma_one_first_fault(readings, i, index as int);
                },
                Err(TemperatureError::NotANumber(index)) => {
                    lemma_one_first_fault(readings, i, index as int);
                },
                Err(TemperatureError::Implausible(index, _)) => {
                    lemma_one_first_fault(readings, i, index as int);
                },
            }
        }
    }
}

proof fn lemma_one_first_fault(readings: Seq<Option<Seq<char>>>, a: int, b: int)
    requires
        is_first_fault(readings, a),
        is_first_fault(readings, b),
    ensures
        a == b,
{
    if a < b {
        assert(is_plausible(readings[a]));
    } else if b < a {
        assert(is_plausible(readings[b]));
    }
}

/// The devices that are known, and no others.
pub proof fn law_known_devices(name: Seq<char>)
    ensures
        is_supported("amdgpu"@),
        is_supported("coretemp"@),
        is_supported("i915"@),
        is_supported("k10temp"@),
        is_supported("nvidia"@),
        is_supported("nouveau"@),
        is_supported("zenpower"@),
        is_supported(name) ==> name == "amdgpu"@ || name == "coretemp"@ || name == "i915"@ || name == "k10temp"@
            || name == "nvidia"@ || name == "nouveau"@ || name == "zenpower"@,
{
}

/// The files of a measurement begin with what stands before `_input`, which may
/// stand there more than once. Other files hold no measurement.
pub proof fn law_measurements_are_told_by_their_names(front: Seq<char>, other: Seq<char>)
    ensures
        "temp"@.is_prefix_of(front) && !"_input"@.is_suffix_of(front) ==> prefix_of(front + "_input"@) == Some(
            front,
        ),
        "temp"@.is_prefix_of(front) && "_input"@.is_suffix_of(front) ==> prefix_of(front + "_input"@) == prefix_of(
            front,
        ),
        !"temp"@.is_prefix_of(other) ==> prefix_of(other) is None,
        !"_input"@.is_suffix_of(other) ==> prefix_of(other) is None,
{
    reveal_strlit("temp");
    reveal_strlit("_input");
    let name = front + "_input"@;
    assert("_input"@.is_suffix_of(name));
    assert(name.take(name.len() - 6) =~= front);
    reveal_with_fuel(stripped, 2);
    if "temp"@.is_prefix_of(front) {
        assert("temp"@.is_prefix_of(name));
    }
}

/// The contents of files are taken as they are, in their order, and a file that
/// could not be read stands in its place.
pub proof fn law_contents_are_taken_as_they_are(readings: Seq<Option<String>>, i: int)
    requires
        0 <= i < readings.len(),
    ensures
        contents_of(readings).len() == readings.len(),
        readings[i] is None ==> contents_of(readings)[i] is None,
        readings[i] is Some ==> contents_of(readings)[i] == Some(readings[i]->0@),
{
}

} // verus!
