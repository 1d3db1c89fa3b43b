//! Where configurations are stored: a partition of the flash with several
//! slots, which are written in turn.
use vstd::prelude::*;
use vstd::slice::*;

use crate::config;
use crate::config::{decode, encode, DeviceConfig, COMMIT_OFFSET, RECORD_LEN};
use crate::control;

verus! {

pub const PARTITION_OFFSET: u32 = 0x9000;

pub const PARTITION_END: u32 = 0xf000;

/// The size of a slot, which is the size of a sector of the flash.
pub const SLOT_SIZE: u32 = 0x1000;

pub const SLOT_COUNT: usize = 6;

/// Why a configuration was not loaded or saved, with the error of the flash.
#[derive(Debug, Eq, PartialEq)]
pub enum ConfigStorageError<E> {
    Flash(E),
    VerificationFailed,
}

/// A configuration, and where it was found.
#[derive(Debug, Eq, PartialEq)]
pub struct StoredConfig {
    pub config: DeviceConfig,
    pub generation: u32,
    pub slot: usize,
}

/// The texts of a stored configuration, and where they were found.
#[verifier::ext_equal]
pub struct StoredTexts {
    pub texts: config::DeviceTexts,
    pub generation: u32,
    pub slot: int,
}

impl View for StoredConfig {
    type V = StoredTexts;

    open spec fn view(&self) -> StoredTexts {
        StoredTexts { texts: self.config@, generation: self.generation, slot: self.slot as int }
    }
}

/// One thing to be done to the flash.
#[derive(Debug, Eq, PartialEq)]
pub enum FlashOperation {
    /// Set all bytes from one address up to another to `0xff`.
    Erase { from: u32, to: u32 },
    /// Write these bytes from an address on.
    Write { address: u32, bytes: Vec<u8> },
}

/// One thing to be done to the flash.
pub enum FlashStep {
    Erase { from: int, to: int },
    Write { address: int, bytes: Seq<u8> },
}

impl View for FlashOperation {
    type V = FlashStep;

    open spec fn view(&self) -> FlashStep {
        match self {
            FlashOperation::Erase { from, to } => FlashStep::Erase { from: *from as int, to: *to as int },
            FlashOperation::Write { address, bytes } => FlashStep::Write {
                address: *address as int,
                bytes: bytes@,
            },
        }
    }
}

/// How a configuration is to be saved.
#[derive(Clone, Copy, Debug, Eq, PartialEq)]
pub struct SavePlan {
    pub slot: usize,
    pub generation: u32,
    pub record: [u8; RECORD_LEN],
}

/// How far a save has come. The last stage takes it back, because of an error.
#[derive(Debug, Eq, PartialEq)]
pub enum SaveStage<E> {
    Erase,
    WriteBody,
    WriteMarker,
    ReadBack,
    Undo(ConfigStorageError<E>),
}

/// What is to be done at a stage of a save.
#[derive(Debug, Eq, PartialEq)]
pub enum SaveAction {
    /// Do this to the flash.
    Perform(FlashOperation),
    /// Read a record from this address.
    Read { address: u32 },
}

/// What is to be done at a stage of a save.
pub enum SaveStep {
    Perform(FlashStep),
    Read { address: int },
}

impl View for SaveAction {
    type V = SaveStep;

    open spec fn view(&self) -> SaveStep {
        match self {
            SaveAction::Perform(operation) => SaveStep::Perform(operation@),
            SaveAction::Read { address } => SaveStep::Read { address: *address as int },
        }
    }
}

/// What came of it: it was done, a record was read, or the flash failed.
#[derive(Debug, Eq, PartialEq)]
pub enum FlashOutcome<E> {
    Performed,
    Read([u8; RECORD_LEN]),
    Failed(E),
}

/// How a save goes on.
#[derive(Debug, Eq, PartialEq)]
pub enum SaveProgress<E> {
    Continue(SaveStage<E>),
    Done(Result<(), ConfigStorageError<E>>),
}

/// The address at which a slot begins.
pub open spec fn address_of(slot: int) -> int {
    PARTITION_OFFSET + slot * SLOT_SIZE
}

/// The newest of the configurations in these slots; of two that are equally
/// new, the first.
pub open spec fn latest(records: Seq<Seq<u8>>) -> Option<StoredTexts>
    decreases records.len(),
{
    if records.len() == 0 {
        None
    } else {
        let before = latest(records.drop_last());
        match config::decoded(records.last()) {
            Err(_) => before,
            Ok((texts, generation)) => if before matches Some(current) && !control::comes_after(
                generation,
                current.generation,
            ) {
                before
            } else {
                Some(StoredTexts { texts, generation, slot: records.len() - 1 })
            },
        }
    }
}

/// The slot that is written next.
pub open spec fn next_slot(newest: Option<StoredTexts>) -> int {
    match newest {
        Some(stored) => (stored.slot + 1) % SLOT_COUNT as int,
        None => 0,
    }
}

/// The generation that is written next.
pub open spec fn next_generation(newest: Option<StoredTexts>) -> u32 {
    match newest {
        Some(stored) => stored.generation.wrapping_add(1),
        None => 1,
    }
}

/// What is done to the flash in order to save: the slot is erased, then the
/// record is written to it, and its commit marker last of all.
pub open spec fn save_steps(slot: int, record: Seq<u8>) -> Seq<FlashStep> {
    let address = address_of(slot);
    seq![
        FlashStep::Erase { from: address, to: address + SLOT_SIZE },
        FlashStep::Write { address, bytes: record.subrange(0, COMMIT_OFFSET as int) },
        FlashStep::Write {
            address: address + COMMIT_OFFSET,
            bytes: record.subrange(COMMIT_OFFSET as int, RECORD_LEN as int),
        },
    ]
}

/// What takes a save back.
pub open spec fn undo_step(slot: int) -> FlashStep {
    FlashStep::Erase { from: address_of(slot), to: address_of(slot) + SLOT_SIZE }
}

/// What is to be done at a stage of a save.
pub open spec fn save_action<E>(slot: int, record: Seq<u8>, stage: SaveStage<E>) -> SaveStep {
    let steps = save_steps(slot, record);
    match stage {
        SaveStage::Erase => SaveStep::Perform(steps[0]),
        SaveStage::WriteBody => SaveStep::Perform(steps[1]),
        SaveStage::WriteMarker => SaveStep::Perform(steps[2]),
        SaveStage::ReadBack => SaveStep::Read { address: address_of(slot) },
        SaveStage::Undo(_) => SaveStep::Perform(undo_step(slot)),
    }
}

/// How a save of `texts` as `generation` goes on. It succeeds where the record
/// that is read back says so. A failure before the commit marker is written ends
/// it, as the slot holds no configuration then; after a later one it is undone
/// first.
pub open spec fn save_progress<E>(
    texts: config::DeviceTexts,
    generation: u32,
    stage: SaveStage<E>,
    outcome: FlashOutcome<E>,
) -> SaveProgress<E> {
    match (stage, outcome) {
        (SaveStage::Undo(error), _) => SaveProgress::Done(Err(error)),
        (SaveStage::Erase, FlashOutcome::Failed(error)) => SaveProgress::Done(
            Err(ConfigStorageError::Flash(error)),
        ),
        (SaveStage::WriteBody, FlashOutcome::Failed(error)) => SaveProgress::Done(
            Err(ConfigStorageError::Flash(error)),
        ),
        (_, FlashOutcome::Failed(error)) => SaveProgress::Continue(
            SaveStage::Undo(ConfigStorageError::Flash(error)),
        ),
        (SaveStage::Erase, _) => SaveProgress::Continue(SaveStage::WriteBody),
        (SaveStage::WriteBody, _) => SaveProgress::Continue(SaveStage::WriteMarker),
        (SaveStage::WriteMarker, _) => SaveProgress::Continue(SaveStage::ReadBack),
        (SaveStage::ReadBack, FlashOutcome::Read(written)) => if config::decoded(written@) == Ok::<
            (config::DeviceTexts, u32),
            config::ConfigError,
        >((texts, generation)) {
            SaveProgress::Done(Ok(()))
        } else {
            SaveProgress::Continue(SaveStage::Undo(ConfigStorageError::VerificationFailed))
        },
        (SaveStage::ReadBack, FlashOutcome::Performed) => SaveProgress::Continue(
            SaveStage::Undo(ConfigStorageError::VerificationFailed),
        ),
    }
}

/// The bytes of the slots' records.
pub open spec fn slots(records: Seq<[u8; RECORD_LEN]>) -> Seq<Seq<u8>> {
    records.map_values(|record: [u8; RECORD_LEN]| record@)
}

/// Whether generation `candidate` comes after `current`.
pub fn generation_is_newer(candidate: u32, current: u32) -> (newer: bool)
    ensures
        newer == control::comes_after(candidate, current),
{
    candidate != current && candidate.wrapping_sub(current) < 0x8000_0000
}

/// The address at which a slot begins.
pub fn slot_address(slot: usize) -> (address: u32)
    requires
        slot < SLOT_COUNT,
    ensures
        address == address_of(slot as int),
        PARTITION_OFFSET <= address,
        address + SLOT_SIZE <= PARTITION_END,
{
    PARTITION_OFFSET + (slot as u32) * SLOT_SIZE
}

/// The newest configuration in the records that the slots hold.
pub fn load_latest(records: &[[u8; RECORD_LEN]; SLOT_COUNT]) -> (result: Option<StoredConfig>)
    ensures
        match result {
            Some(stored) => latest(slots(records@)) == Some(stored@) && stored.slot < SLOT_COUNT,
            None => latest(slots(records@)) is None,
        },
{
    let ghost all = slots(records@);
    let mut newest: Option<StoredConfig> = None;
    let mut slot: usize = 0;
    while slot < SLOT_COUNT
        invariant
            slot <= SLOT_COUNT,
            all == slots(records@),
            match newest {
                Some(stored) => latest(all.take(slot as int)) == Some(stored@) && stored.slot < slot,
                None => latest(all.take(slot as int)) is None,
            },
        decreases SLOT_COUNT - slot,
    {
        assert(all.take(slot + 1).drop_last() =~= all.take(slot as int));
        assert(all.take(slot + 1).last() == records@[slot as int]@);
        if let Ok((config, generation)) = decode(&records[slot]) {
            let replace = match &newest {
                None => true,
                Some(current) => generation_is_newer(generation, current.generation),
            };
            if replace {
                newest = Some(StoredConfig { config, generation, slot });
            }
        }
        slot += 1;
    }
    assert(all.take(slot as int) =~= all);
    newest
}

/// The configuration that the slots store, of all of them the newest.
pub fn load(records: &[[u8; RECORD_LEN]; SLOT_COUNT]) -> (result: Option<DeviceConfig>)
    ensures
        match result {
            Some(config) => latest(slots(records@)) matches Some(stored) && stored.texts == config@,
            None => latest(slots(records@)) is None,
        },
{
    match load_latest(records) {
        Some(stored) => Some(stored.config),
        None => None,
    }
}

/// How to save `config`, given the records that the slots hold.
pub fn save(records: &[[u8; RECORD_LEN]; SLOT_COUNT], config: &DeviceConfig) -> (plan: SavePlan)
    ensures
        ({
            let newest = latest(slots(records@));
            &&& plan.slot == next_slot(newest)
            &&& plan.slot < SLOT_COUNT
            &&& plan.generation == next_generation(newest)
            &&& plan.record@ == config::encoded(config@, plan.generation)
        }),
{
    let (slot, generation): (usize, u32) = match load_latest(records) {
        Some(stored) => ((stored.slot + 1) % SLOT_COUNT, stored.generation.wrapping_add(1)),
        None => (0, 1),
    };
    let record = encode(config, generation);
    SavePlan { slot, generation, record }
}

impl SavePlan {
    /// What takes the save back, where it has failed once its commit marker may
    /// stand in the flash.
    pub fn undo(&self) -> (operation: FlashOperation)
        requires
            self.slot < SLOT_COUNT,
        ensures
            operation@ == undo_step(self.slot as int),
    {
        let address = slot_address(self.slot);
        FlashOperation::Erase { from: address, to: address + SLOT_SIZE }
    }

    /// What is to be done at a stage of the save.
    pub fn action<E>(&self, stage: &SaveStage<E>) -> (action: SaveAction)
        requires
            self.slot < SLOT_COUNT,
        ensures
            action@ == save_action(self.slot as int, self.record@, *stage),
    {
        let address = slot_address(self.slot);
        let record = self.record.as_slice();
        match stage {
            SaveStage::Erase => SaveAction::Perform(
                FlashOperation::Erase { from: address, to: address + SLOT_SIZE },
            ),
            SaveStage::WriteBody => SaveAction::Perform(
                FlashOperation::Write {
                    address,
                    bytes: slice_to_vec(slice_subrange(record, 0, COMMIT_OFFSET)),
                },
            ),
            SaveStage::WriteMarker => SaveAction::Perform(
                FlashOperation::Write {
                    address: address + COMMIT_OFFSET as u32,
                    bytes: slice_to_vec(slice_subrange(record, COMMIT_OFFSET, RECORD_LEN)),
                },
            ),
            SaveStage::ReadBack => SaveAction::Read { address },
            SaveStage::Undo(_) => SaveAction::Perform(self.undo()),
        }
    }

    /// How the save of `config` goes on.
    pub fn advance<E>(&self, config: &DeviceConfig, stage: SaveStage<E>, outcome: FlashOutcome<E>) -> (progress:
        SaveProgress<E>)
        ensures
            progress == save_progress(config@, self.generation, stage, outcome),
    {
        match stage {
            SaveStage::Undo(error) => SaveProgress::Done(Err(error)),
            stage => match outcome {
                FlashOutcome::Failed(error) => match stage {
                    SaveStage::Erase | SaveStage::WriteBody => SaveProgress::Done(
                        Err(ConfigStorageError::Flash(error)),
                    ),
                    _ => SaveProgress::Continue(SaveStage::Undo(ConfigStorageError::Flash(error))),
                },
                FlashOutcome::Read(written) => match stage {
                    SaveStage::ReadBack => match self.verify(config, &written) {
                        Ok(()) => SaveProgress::Done(Ok(())),
                        Err(error) => SaveProgress::Continue(SaveStage::Undo(error)),
                    },
                    stage => SaveProgress::Continue(following(stage)),
                },
                FlashOutcome::Performed => SaveProgress::Continue(following(stage)),
            },
        }
    }

    /// Whether the record that was read back from the slot stores `config` as
    /// this plan meant it to. Where it does not, the save is to be undone.
    pub fn verify<E>(&self, config: &DeviceConfig, written: &[u8; RECORD_LEN]) -> (result: Result<
        (),
        ConfigStorageError<E>,
    >)
        ensures
            result == if config::decoded(written@) == Ok::<(config::DeviceTexts, u32), config::ConfigError>(
                (config@, self.generation),
            ) {
                Ok::<(), ConfigStorageError<E>>(())
            } else {
                Err::<(), ConfigStorageError<E>>(ConfigStorageError::VerificationFailed)
            },
    {
        match decode(written) {
            Ok((stored_config, stored_generation)) => {
                if stored_config.same(config) && stored_generation == self.generation {
                    Ok(())
                } else {
                    Err(ConfigStorageError::VerificationFailed)
                }
            },
            Err(_) => Err(ConfigStorageError::VerificationFailed),
        }
    }
}

/// The stage that follows one at which the flash did its work. Reading back
/// without a record counts as reading back a wrong one.
fn following<E>(stage: SaveStage<E>) -> (next: SaveStage<E>)
    ensures
        next == match stage {
            SaveStage::Erase => SaveStage::WriteBody,
            SaveStage::WriteBody => SaveStage::WriteMarker,
            SaveStage::WriteMarker => SaveStage::ReadBack,
            SaveStage::ReadBack => SaveStage::Undo(ConfigStorageError::VerificationFailed),
            SaveStage::Undo(error) => SaveStage::Undo(error),
        },
{
    match stage {
        SaveStage::Erase => SaveStage::WriteBody,
        SaveStage::WriteBody => SaveStage::WriteMarker,
        SaveStage::WriteMarker => SaveStage::ReadBack,
        SaveStage::ReadBack => SaveStage::Undo(ConfigStorageError::VerificationFailed),
        SaveStage::Undo(error) => SaveStage::Undo(error),
    }
}

/// The generations that the slots hold, where they hold any.
pub open spec fn generations(records: Seq<Seq<u8>>) -> Seq<Option<u32>> {
    records.map_values(
        |record: Seq<u8>|
            match config::decoded(record) {
                Ok((_, generation)) => Some(generation),
                Err(_) => None,
            },
    )
}

/// Whether each generation is the one that the slots, written in turn, have
/// there when slot `slot` holds `generation`.
pub open spec fn in_turn(found: Seq<Option<u32>>, generation: u32, slot: int) -> bool {
    &&& 0 <= slot < SLOT_COUNT
    &&& found.len() == SLOT_COUNT
    &&& forall|i: int|
        0 <= i < SLOT_COUNT ==> ((#[trigger] found[i]) matches Some(g) ==> (generation - g) % 0x1_0000_0000
            == (slot - i) % SLOT_COUNT as int)
}

/// Whether the slots were written in turn. Slots that hold no configuration
/// do not matter.
pub open spec fn written_in_turn(records: Seq<Seq<u8>>) -> bool {
    exists|generation: u32, slot: int| in_turn(generations(records), generation, slot)
}

/// Whether the newest generation is equal to or comes after every other.
pub open spec fn newest_is_clear(records: Seq<Seq<u8>>) -> bool {
    latest(records) matches Some(newest) ==> is_clear(generations(records), newest.generation)
}

/// Whether `generation` is equal to or comes after each of those that were
/// found.
pub open spec fn is_clear(found: Seq<Option<u32>>, generation: u32) -> bool {
    forall|i: int|
        0 <= i < found.len() ==> ((#[trigger] found[i]) matches Some(g) ==> g == generation
            || control::comes_after(generation, g))
}

/// Whether the newest configuration, where the first slot is written next, is
/// the newest also without the first slot.
pub open spec fn newest_without_first(records: Seq<Seq<u8>>) -> bool {
    latest(records) is Some && next_slot(latest(records)) == 0 ==> {
        &&& latest(records.skip(1)) is Some
        &&& latest(records.skip(1))->0.slot == SLOT_COUNT - 2
    }
}

/// Whether no slot behind the one that is written next holds a generation that
/// comes after the next.
pub open spec fn none_ahead(records: Seq<Seq<u8>>) -> bool {
    forall|i: int|
        next_slot(latest(records)) < i < SLOT_COUNT && (#[trigger] generations(records)[i]) is Some
            ==> !control::comes_after(generations(records)[i]->0, next_generation(latest(records)))
}

/// What the slots hold, given all bytes of the flash.
pub open spec fn slots_in(memory: Seq<u8>) -> Seq<Seq<u8>> {
    Seq::new(
        SLOT_COUNT as nat,
        |slot: int| memory.subrange(address_of(slot), address_of(slot) + RECORD_LEN),
    )
}

/// The flash after the first `part` bytes of a step; an erase happens whole or
/// not at all.
pub open spec fn partly_done(memory: Seq<u8>, step: FlashStep, part: nat) -> Seq<u8> {
    match step {
        FlashStep::Erase { from, to } => if part == 0 {
            memory
        } else {
            Seq::new(
                memory.len(),
                |a: int|
                    if from <= a < to {
                        0xff
                    } else {
                        memory[a]
                    },
            )
        },
        FlashStep::Write { address, bytes } => Seq::new(
            memory.len(),
            |a: int|
                if address <= a < address + bytes.len() && a < address + part {
                    bytes[a - address]
                } else {
                    memory[a]
                },
        ),
    }
}

/// How many parts a step has.
pub open spec fn parts(step: FlashStep) -> nat {
    match step {
        FlashStep::Erase { .. } => 1,
        FlashStep::Write { bytes, .. } => bytes.len(),
    }
}

/// The flash after the first `done` of the steps.
pub open spec fn done_steps(memory: Seq<u8>, steps: Seq<FlashStep>, done: nat) -> Seq<u8>
    decreases done,
{
    if done == 0 {
        memory
    } else {
        let step = steps[done - 1];
        partly_done(done_steps(memory, steps, (done - 1) as nat), step, parts(step))
    }
}

/// The slot of the newest generation; of two that are equally new, the first.
spec fn newest_slot(found: Seq<Option<u32>>) -> Option<int>
    decreases found.len(),
{
    if found.len() == 0 {
        None
    } else {
        let before = newest_slot(found.drop_last());
        match found.last() {
            None => before,
            Some(generation) => if before is Some && !control::comes_after(generation, found[before->0]->0) {
                before
            } else {
                Some(found.len() - 1)
            },
        }
    }
}

/// The newest configuration is in the slot of the newest generation.
proof fn lemma_latest_is_in_newest_slot(records: Seq<Seq<u8>>)
    ensures
        match newest_slot(generations(records)) {
            None => latest(records) is None,
            Some(slot) => {
                &&& 0 <= slot < records.len()
                &&& generations(records)[slot] is Some
                &&& latest(records) == Some(
                    StoredTexts {
                        texts: config::decoded(records[slot])->Ok_0.0,
                        generation: generations(records)[slot]->0,
                        slot,
                    },
                )
            },
        },
    decreases records.len(),
{
    if records.len() > 0 {
        lemma_latest_is_in_newest_slot(records.drop_last());
        assert(generations(records).drop_last() =~= generations(records.drop_last()));
    }
}

/// Of two generations that are less than a turn old, the one that is less old
/// comes after the other.
proof fn lemma_age_orders(newest: u32, a: u32, b: u32)
    requires
        (newest - a) % 0x1_0000_0000 < SLOT_COUNT,
        (newest - b) % 0x1_0000_0000 < SLOT_COUNT,
    ensures
        control::comes_after(a, b) <==> (newest - a) % 0x1_0000_0000 < (newest - b) % 0x1_0000_0000,
        (newest - a) % 0x1_0000_0000 <= (newest - b) % 0x1_0000_0000 ==> (a - b) % 0x1_0000_0000 == (newest
            - b) % 0x1_0000_0000 - (newest - a) % 0x1_0000_0000,
{
}

/// In slots that were written in turn the newest generation is the one that
/// was written last.
proof fn lemma_newest_in_turn(found: Seq<Option<u32>>, generation: u32, slot: int, n: int)
    requires
        in_turn(found, generation, slot),
        0 <= n <= SLOT_COUNT,
    ensures
        match newest_slot(found.take(n)) {
            None => forall|i: int| 0 <= i < n ==> (#[trigger] found[i]) is None,
            Some(newest) => {
                &&& 0 <= newest < n
                &&& found[newest] is Some
                &&& forall|i: int|
                    0 <= i < n && (#[trigger] found[i]) is Some ==> (slot - newest) % SLOT_COUNT as int <= (slot
                        - i) % SLOT_COUNT as int
            },
        },
    decreases n,
{
    if n > 0 {
        lemma_newest_in_turn(found, generation, slot, n - 1);
        let prefix = found.take(n);
        assert(prefix.drop_last() =~= found.take(n - 1));
        assert(prefix.last() == found[n - 1]);
        if let Some(current) = newest_slot(found.take(n - 1)) {
            assert(prefix[current] == found[current]);
            if found[n - 1] is Some {
                lemma_age_orders(generation, found[n - 1]->0, found[current]->0);
            }
        }
    }
}

/// Slots that were written in turn were so with the newest as the last.
proof fn lemma_in_turn_from_newest(found: Seq<Option<u32>>, generation: u32, slot: int)
    requires
        in_turn(found, generation, slot),
    ensures
        match newest_slot(found) {
            None => forall|i: int| 0 <= i < SLOT_COUNT ==> (#[trigger] found[i]) is None,
            Some(newest) => found[newest] is Some && in_turn(found, found[newest]->0, newest),
        },
{
    lemma_newest_in_turn(found, generation, slot, SLOT_COUNT as int);
    assert(found.take(SLOT_COUNT as int) =~= found);
    if let Some(newest) = newest_slot(found) {
        let last = found[newest]->0;
        assert forall|i: int| 0 <= i < SLOT_COUNT implies ((#[trigger] found[i]) matches Some(g) ==> (last - g)
            % 0x1_0000_0000 == (newest - i) % SLOT_COUNT as int) by {
            if found[i] is Some {
                lemma_age_orders(generation, last, found[i]->0);
                lemma_turns(slot, newest, i);
            }
        }
    }
}

/// Going back from one slot to another by way of a third.
proof fn lemma_turns(slot: int, newest: int, i: int)
    requires
        0 <= slot < SLOT_COUNT,
        0 <= newest < SLOT_COUNT,
        0 <= i < SLOT_COUNT,
    ensures
        (slot - newest) % SLOT_COUNT as int <= (slot - i) % SLOT_COUNT as int ==> (newest - i) % SLOT_COUNT as int
            == (slot - i) % SLOT_COUNT as int - (slot - newest) % SLOT_COUNT as int,
        (newest - i) % SLOT_COUNT as int == 0 <==> newest == i,
        i != (newest + 1) % SLOT_COUNT as int ==> ((newest + 1) % SLOT_COUNT as int - i) % SLOT_COUNT as int == (
        newest - i) % SLOT_COUNT as int + 1,
{
}

/// What is known of slots that were written in turn.
proof fn lemma_newest_of_turn(records: Seq<Seq<u8>>)
    requires
        written_in_turn(records),
    ensures
        records.len() == SLOT_COUNT,
        match latest(records) {
            None => forall|i: int| 0 <= i < SLOT_COUNT ==> (#[trigger] generations(records)[i]) is None,
            Some(newest) => {
                &&& in_turn(generations(records), newest.generation, newest.slot)
                &&& generations(records)[newest.slot] == Some(newest.generation)
                &&& newest.texts == config::decoded(records[newest.slot])->Ok_0.0
            },
        },
{
    let found = generations(records);
    let (generation, slot) = choose|generation: u32, slot: int| in_turn(found, generation, slot);
    lemma_in_turn_from_newest(found, generation, slot);
    lemma_latest_is_in_newest_slot(records);
}

/// Where the slot that is written next comes to hold no configuration, the
/// slots stay written in turn.
proof fn lemma_spoiled_stays_in_turn(records: Seq<Seq<u8>>, content: Seq<u8>)
    requires
        written_in_turn(records),
        config::decoded(content) is Err,
    ensures
        written_in_turn(records.update(next_slot(latest(records)), content)),
{
    let target = next_slot(latest(records));
    let after = records.update(target, content);
    let found = generations(records);
    let left = generations(after);
    lemma_newest_of_turn(records);
    assert(left =~= found.update(target, None));
    match latest(records) {
        Some(stored) => {
            assert(in_turn(left, stored.generation, stored.slot));
        },
        None => {
            assert(in_turn(left, 0, 0));
        },
    }
}

/// Where a configuration is saved, the slots stay written in turn.
proof fn lemma_saved_stays_in_turn(records: Seq<Seq<u8>>, texts: config::DeviceTexts)
    requires
        written_in_turn(records),
        texts.valid(),
    ensures
        written_in_turn(
            records.update(
                next_slot(latest(records)),
                config::encoded(texts, next_generation(latest(records))),
            ),
        ),
{
    let newest = latest(records);
    let slot = next_slot(newest);
    let generation = next_generation(newest);
    let record = config::encoded(texts, generation);
    let after = records.update(slot, record);
    let found = generations(records);
    let left = generations(after);
    config::law_record_round_trip(texts, generation);
    lemma_newest_of_turn(records);
    assert(after[slot] == record);
    assert(left =~= found.update(slot, Some(generation)));
    assert forall|i: int| 0 <= i < SLOT_COUNT implies ((#[trigger] left[i]) matches Some(g) ==> (generation - g)
        % 0x1_0000_0000 == (slot - i) % SLOT_COUNT as int) by {
        if i != slot && left[i] is Some {
            assert(found[i] == left[i]);
            let stored = newest->0;
            lemma_turns(stored.slot, stored.slot, i);
            lemma_next_is_one_older(stored.generation, left[i]->0);
        }
    }
    assert(in_turn(left, generation, slot));
}

proof fn lemma_next_is_one_older(newest: u32, g: u32)
    requires
        (newest - g) % 0x1_0000_0000 < SLOT_COUNT,
    ensures
        (newest.wrapping_add(1) - g) % 0x1_0000_0000 == (newest - g) % 0x1_0000_0000 + 1,
{
}

/// The newest generation is so before any that stand behind it, and none of
/// those comes after it.
proof fn lemma_newest_stays(found: Seq<Option<u32>>, slot: int)
    requires
        newest_slot(found) == Some(slot),
    ensures
        0 <= slot < found.len(),
        newest_slot(found.take(slot + 1)) == Some(slot),
        found[slot] is Some,
        forall|i: int|
            slot < i < found.len() && (#[trigger] found[i]) is Some ==> !control::comes_after(
                found[i]->0,
                found[slot]->0,
            ),
    decreases found.len(),
{
    let before = found.drop_last();
    if newest_slot(before) == Some(slot) && slot != found.len() - 1 {
        lemma_newest_stays(before, slot);
        assert(before.take(slot + 1) =~= found.take(slot + 1));
        assert forall|i: int| slot < i < found.len() && (#[trigger] found[i]) is Some implies !control::comes_after(
            found[i]->0,
            found[slot]->0,
        ) by {
            if i < found.len() - 1 {
                assert(before[i] == found[i]);
            }
        }
    } else if newest_slot(before) is Some {
        lemma_newest_stays(before, newest_slot(before)->0);
        assert(found.take(found.len() as int) =~= found);
    } else {
        assert(found.take(found.len() as int) =~= found);
    }
}

/// The newest of the first generations stays so where none behind them comes
/// after it.
proof fn lemma_stays_newest(found: Seq<Option<u32>>, n: int, slot: int)
    requires
        0 <= slot < n <= found.len(),
        newest_slot(found.take(n)) == Some(slot),
        forall|i: int|
            n <= i < found.len() && (#[trigger] found[i]) is Some ==> !control::comes_after(
                found[i]->0,
                found[slot]->0,
            ),
    ensures
        newest_slot(found) == Some(slot),
    decreases found.len(),
{
    if n == found.len() {
        assert(found.take(n) =~= found);
    } else {
        let before = found.drop_last();
        assert(before.take(n) =~= found.take(n));
        lemma_stays_newest(before, n, slot);
    }
}

/// A generation that is equal to or comes after every other, and is the first
/// of its kind, is the newest.
proof fn lemma_clear_is_newest(found: Seq<Option<u32>>, slot: int)
    requires
        0 <= slot < found.len(),
        found[slot] is Some,
        is_clear(found, found[slot]->0),
        forall|i: int| 0 <= i < slot ==> #[trigger] found[i] != found[slot],
    ensures
        newest_slot(found) == Some(slot),
{
    let first = found.take(slot + 1);
    let before = found.take(slot);
    assert(first.drop_last() =~= before);
    assert(first.last() == found[slot]);
    if let Some(current) = newest_slot(before) {
        lemma_newest_stays(before, current);
        assert(before[current] == found[current]);
        assert(first[current] == found[current]);
    }
    assert(newest_slot(first) == Some(slot));
    assert forall|i: int| slot + 1 <= i < found.len() && (#[trigger] found[i]) is Some implies !control::comes_after(
        found[i]->0,
        found[slot]->0,
    ) by {
        control::law_newer_is_one_way(found[i]->0, found[slot]->0);
    }
    lemma_stays_newest(found, slot + 1, slot);
}

/// The newest generation is the first of its kind where it is equal to or comes
/// after every other.
proof fn lemma_newest_is_first(found: Seq<Option<u32>>, slot: int, other: int)
    requires
        newest_slot(found) == Some(slot),
        0 <= slot < found.len(),
        found[slot] is Some,
        is_clear(found, found[slot]->0),
        0 <= other < slot,
    ensures
        found[other] != found[slot],
    decreases other,
{
    if found[other] == found[slot] {
        assert forall|i: int| 0 <= i < other implies #[trigger] found[i] != found[other] by {
            lemma_newest_is_first(found, slot, i);
        }
        lemma_clear_is_newest(found, other);
    }
}

/// The newest generation stays the newest where another is taken away.
proof fn lemma_newest_without(found: Seq<Option<u32>>, slot: int, target: int)
    requires
        newest_slot(found) == Some(slot),
        0 <= slot < found.len(),
        found[slot] is Some,
        is_clear(found, found[slot]->0),
        0 <= target < found.len(),
        target != slot,
    ensures
        newest_slot(found.update(target, None)) == Some(slot),
{
    let left = found.update(target, None);
    assert forall|i: int| 0 <= i < slot implies #[trigger] left[i] != left[slot] by {
        lemma_newest_is_first(found, slot, i);
    }
    assert(is_clear(left, left[slot]->0)) by {
        assert forall|i: int| 0 <= i < left.len() implies ((#[trigger] left[i]) matches Some(g) ==> g
            == left[slot]->0 || control::comes_after(left[slot]->0, g)) by {
            if i != target {
                assert(left[i] == found[i]);
            }
        }
    }
    lemma_clear_is_newest(left, slot);
}

/// Where nothing is newest there is nothing.
proof fn lemma_nothing_newest(found: Seq<Option<u32>>)
    requires
        newest_slot(found) is None,
    ensures
        forall|i: int| 0 <= i < found.len() ==> (#[trigger] found[i]) is None,
    decreases found.len(),
{
    if found.len() > 0 {
        let before = found.drop_last();
        lemma_nothing_newest(before);
        assert forall|i: int| 0 <= i < found.len() implies (#[trigger] found[i]) is None by {
            if i < found.len() - 1 {
                assert(found[i] == before[i]);
            }
        }
    }
}

/// A place without a generation in front of the others moves them by one.
proof fn lemma_newest_behind_nothing(found: Seq<Option<u32>>)
    ensures
        newest_slot(seq![None] + found) == match newest_slot(found) {
            Some(slot) => Some(slot + 1),
            None => None,
        },
        newest_slot(found) matches Some(slot) ==> 0 <= slot < found.len(),
    decreases found.len(),
{
    let moved = seq![None::<u32>] + found;
    if found.len() == 0 {
        assert(moved.drop_last() =~= Seq::<Option<u32>>::empty());
        assert(newest_slot(Seq::<Option<u32>>::empty()) is None);
        assert(moved.last() is None);
    } else {
        let before = found.drop_last();
        lemma_newest_behind_nothing(before);
        assert(moved.drop_last() =~= seq![None::<u32>] + before);
        assert(moved.last() == found.last());
        if let Some(slot) = newest_slot(before) {
            assert(moved[slot + 1] == found[slot]);
        }
    }
}

/// The newest generation stays the newest where the one behind it is taken
/// away.
proof fn lemma_newest_without_next(found: Seq<Option<u32>>, slot: int)
    requires
        newest_slot(found) == Some(slot),
        slot + 1 < found.len(),
    ensures
        newest_slot(found.update(slot + 1, None)) == Some(slot),
{
    let left = found.update(slot + 1, None);
    lemma_newest_stays(found, slot);
    assert(left.take(slot + 1) =~= found.take(slot + 1));
    assert(left[slot] == found[slot]);
    lemma_stays_newest(left, slot + 1, slot);
}

/// A generation that is the newest of those behind the first is the newest
/// where the first is taken away.
proof fn lemma_newest_without_first(found: Seq<Option<u32>>, slot: int)
    requires
        found.len() > 0,
        newest_slot(found.skip(1)) == Some(slot - 1),
    ensures
        newest_slot(found.update(0, None)) == Some(slot),
{
    lemma_newest_behind_nothing(found.skip(1));
    assert(found.update(0, None) =~= seq![None::<u32>] + found.skip(1));
}

/// The generation that is newest stays the newest where the slot that is
/// written next is spoiled.
proof fn lemma_spoiled_keeps_newest(records: Seq<Seq<u8>>)
    requires
        records.len() == SLOT_COUNT,
        newest_is_clear(records) || newest_without_first(records),
    ensures
        newest_slot(generations(records).update(next_slot(latest(records)), None)) == newest_slot(
            generations(records),
        ),
{
    let found = generations(records);
    lemma_latest_is_in_newest_slot(records);
    match latest(records) {
        Some(stored) => {
            let target = next_slot(latest(records));
            if newest_is_clear(records) {
                lemma_newest_without(found, stored.slot, target);
            } else if target > 0 {
                lemma_newest_without_next(found, stored.slot);
            } else {
                lemma_latest_is_in_newest_slot(records.skip(1));
                assert(generations(records.skip(1)) =~= found.skip(1));
                lemma_newest_without_first(found, stored.slot);
            }
        },
        None => {
            lemma_nothing_newest(found);
            assert(found.update(0, None) =~= found);
        },
    }
}

/// Whatever the slot that is written next comes to hold, as long as it is no
/// configuration, the newest configuration stays the newest.
pub proof fn law_spoiled_slot_loses_nothing(records: Seq<Seq<u8>>, content: Seq<u8>)
    requires
        records.len() == SLOT_COUNT,
        newest_is_clear(records) || newest_without_first(records),
        config::decoded(content) is Err,
    ensures
        latest(records.update(next_slot(latest(records)), content)) == latest(records),
{
    let target = next_slot(latest(records));
    let after = records.update(target, content);
    lemma_latest_is_in_newest_slot(records);
    lemma_spoiled_keeps_newest(records);
    assert(generations(after) =~= generations(records).update(target, None));
    lemma_latest_is_in_newest_slot(after);
    if let Some(stored) = latest(records) {
        assert(after[stored.slot] == records[stored.slot]);
    }
}

/// The generation that is written behind the newest is the newest, unless one
/// behind it comes after it.
proof fn lemma_written_is_newest(found: Seq<Option<u32>>, slot: int, generation: u32)
    requires
        found.len() == SLOT_COUNT,
        match newest_slot(found) {
            Some(newest) => slot == (newest + 1) % SLOT_COUNT as int && generation == (
            found[newest]->0).wrapping_add(1),
            None => slot == 0,
        },
        forall|i: int|
            slot < i < SLOT_COUNT && (#[trigger] found[i]) is Some ==> !control::comes_after(
                found[i]->0,
                generation,
            ),
    ensures
        newest_slot(found.update(slot, Some(generation))) == Some(slot),
{
    let left = found.update(slot, Some(generation));
    let first = left.take(slot + 1);
    assert(first.last() == Some(generation));
    assert(first.drop_last() =~= found.take(slot));
    if slot > 0 {
        let newest = newest_slot(found)->0;
        lemma_newest_stays(found, newest);
        assert(first[newest] == found[newest]);
    } else {
        assert(found.take(slot) =~= Seq::<Option<u32>>::empty());
        assert(newest_slot(Seq::<Option<u32>>::empty()) is None);
    }
    assert(newest_slot(first) == Some(slot));
    assert forall|i: int| slot + 1 <= i < left.len() && (#[trigger] left[i]) is Some implies !control::comes_after(
        left[i]->0,
        left[slot]->0,
    ) by {
        assert(left[i] == found[i]);
    }
    lemma_stays_newest(left, slot + 1, slot);
}

/// A record that holds a configuration as the next generation, in the slot that
/// is written next, is what is loaded, unless a generation is ahead of it.
proof fn lemma_next_record_is_loaded(records: Seq<Seq<u8>>, texts: config::DeviceTexts, record: Seq<u8>)
    requires
        records.len() == SLOT_COUNT,
        config::decoded(record) == Ok::<(config::DeviceTexts, u32), config::ConfigError>(
            (texts, next_generation(latest(records))),
        ),
        none_ahead(records),
    ensures
        ({
            let newest = latest(records);
            let slot = next_slot(newest);
            latest(records.update(slot, record)) == Some(
                StoredTexts { texts, generation: next_generation(newest), slot },
            )
        }),
{
    let newest = latest(records);
    let slot = next_slot(newest);
    let generation = next_generation(newest);
    let after = records.update(slot, record);
    let found = generations(records);
    let left = generations(after);
    lemma_latest_is_in_newest_slot(records);
    assert(after[slot] == record);
    assert(left =~= found.update(slot, Some(generation)));
    lemma_written_is_newest(found, slot, generation);
    lemma_latest_is_in_newest_slot(after);
}

/// A configuration that was saved is what is loaded next, whatever the slots
/// held, unless a slot behind the one that was written holds a generation that
/// comes after the new one.
pub proof fn law_saved_is_loaded(records: Seq<Seq<u8>>, texts: config::DeviceTexts)
    requires
        records.len() == SLOT_COUNT,
        texts.valid(),
        none_ahead(records),
    ensures
        ({
            let newest = latest(records);
            let slot = next_slot(newest);
            let generation = next_generation(newest);
            let after = records.update(slot, config::encoded(texts, generation));
            latest(after) == Some(StoredTexts { texts, generation, slot })
        }),
{
    let generation = next_generation(latest(records));
    config::law_record_round_trip(texts, generation);
    lemma_next_record_is_loaded(records, texts, config::encoded(texts, generation));
}

/// Flash in which no slot holds a configuration counts as written in turn.
pub proof fn law_empty_slots_are_in_turn(records: Seq<Seq<u8>>)
    requires
        records.len() == SLOT_COUNT,
        forall|i: int| 0 <= i < SLOT_COUNT ==> (#[trigger] config::decoded(records[i])) is Err,
    ensures
        written_in_turn(records),
        latest(records) is None,
{
    let found = generations(records);
    assert forall|i: int| 0 <= i < SLOT_COUNT implies (#[trigger] found[i]) is None by {
        assert(config::decoded(records[i]) is Err);
    }
    assert(in_turn(found, 0, 0));
    lemma_in_turn_from_newest(found, 0, 0);
    lemma_latest_is_in_newest_slot(records);
}

/// A save touches no slot but the one it writes, and the record there is what
/// has been written of it so far.
proof fn lemma_interrupted_slots(memory: Seq<u8>, slot: int, record: Seq<u8>, done: nat, part: nat)
    requires
        memory.len() >= PARTITION_END,
        0 <= slot < SLOT_COUNT,
        record.len() == RECORD_LEN,
        done < 3,
        part <= parts(save_steps(slot, record)[done as int]),
    ensures
        ({
            let steps = save_steps(slot, record);
            let reached = partly_done(done_steps(memory, steps, done), steps[done as int], part);
            let content = reached.subrange(address_of(slot), address_of(slot) + RECORD_LEN);
            let written = if done == 0 {
                0
            } else if done == 1 {
                part as int
            } else {
                COMMIT_OFFSET + part
            };
            &&& content.len() == RECORD_LEN
            &&& slots_in(reached) =~= slots_in(memory).update(slot, content)
            &&& done == 0 && part == 0 ==> content =~= slots_in(memory)[slot]
            &&& done > 0 || part > 0 ==> forall|i: int|
                0 <= i < RECORD_LEN ==> #[trigger] content[i] == if i < written {
                    record[i]
                } else {
                    0xff
                }
        }),
{
    reveal_with_fuel(done_steps, 4);
    let steps = save_steps(slot, record);
    let reached = partly_done(done_steps(memory, steps, done), steps[done as int], part);
    let content = reached.subrange(address_of(slot), address_of(slot) + RECORD_LEN);
    assert forall|i: int| 0 <= i < SLOT_COUNT && i != slot implies #[trigger] slots_in(reached)[i] =~= slots_in(
        memory,
    )[i] by {
        let address = address_of(i);
        assert(address + SLOT_SIZE <= address_of(slot) || address_of(slot) + SLOT_SIZE <= address);
        assert forall|k: int| 0 <= k < RECORD_LEN implies slots_in(reached)[i][k] == slots_in(memory)[i][k] by {
            assert(reached[address + k] == memory[address + k]);
        }
    }
    assert(slots_in(reached) =~= slots_in(memory).update(slot, content));
}

/// The flash after the first `done` steps of a save and the first `part` parts
/// of the next.
pub open spec fn save_reached(memory: Seq<u8>, texts: config::DeviceTexts, done: nat, part: nat) -> Seq<u8> {
    let newest = latest(slots_in(memory));
    let steps = save_steps(next_slot(newest), config::encoded(texts, next_generation(newest)));
    partly_done(done_steps(memory, steps, done), steps[done as int], part)
}

/// Whether a save has `part` parts in the step behind the first `done` steps.
pub open spec fn save_has(memory: Seq<u8>, texts: config::DeviceTexts, done: nat, part: nat) -> bool {
    let newest = latest(slots_in(memory));
    let steps = save_steps(next_slot(newest), config::encoded(texts, next_generation(newest)));
    done < 3 && part <= parts(steps[done as int])
}

/// What the slots hold in the course of a save: at its end the new record, at
/// its beginning what they held, and in between no configuration in the slot
/// that is written.
proof fn lemma_save_reached(memory: Seq<u8>, texts: config::DeviceTexts, done: nat, part: nat) -> (content: Seq<u8>)
    requires
        memory.len() >= PARTITION_END,
        save_has(memory, texts, done, part),
        0 <= next_slot(latest(slots_in(memory))) < SLOT_COUNT,
    ensures
        ({
            let records = slots_in(memory);
            let slot = next_slot(latest(records));
            let reached = slots_in(save_reached(memory, texts, done, part));
            &&& reached == records.update(slot, content)
            &&& if done == 2 && part == RECORD_LEN - COMMIT_OFFSET {
                content == config::encoded(texts, next_generation(latest(records)))
            } else if done == 0 && part == 0 {
                content == records[slot]
            } else {
                config::decoded(content) is Err
            }
        }),
{
    let records = slots_in(memory);
    let newest = latest(records);
    let slot = next_slot(newest);
    let record = config::encoded(texts, next_generation(newest));
    let reached = save_reached(memory, texts, done, part);
    let content = reached.subrange(address_of(slot), address_of(slot) + RECORD_LEN);
    lemma_interrupted_slots(memory, slot, record, done, part);
    if done == 2 && part == RECORD_LEN - COMMIT_OFFSET {
        assert(content =~= record);
    } else if done > 0 || part > 0 {
        let marker = content.subrange(COMMIT_OFFSET as int, RECORD_LEN as int);
        assert(content[RECORD_LEN - 1] == 0xff);
        assert(marker[3] == 0xff);
        assert(config::commit_marker()[3] != 0xff);
        assert(marker != config::commit_marker());
        config::law_uncommitted_is_not_read(content);
    }
    content
}

/// Where the newest generation is clear, none is ahead of the next.
pub proof fn law_none_is_ahead_of_a_clear_newest(records: Seq<Seq<u8>>)
    requires
        records.len() == SLOT_COUNT,
        newest_is_clear(records),
    ensures
        none_ahead(records),
{
    let newest = latest(records);
    lemma_latest_is_in_newest_slot(records);
    if let Some(stored) = newest {
        assert forall|i: int| 0 <= i < SLOT_COUNT && (#[trigger] generations(records)[i]) is Some implies
            !control::comes_after(generations(records)[i]->0, next_generation(newest)) by {
            lemma_clear_below_next(stored.generation, generations(records)[i]->0);
        }
    } else {
        lemma_nothing_newest(generations(records));
    }
}

/// A save that is cut short at any point, before its very last byte has been
/// written, leaves the configuration as it was. One that runs to its end has
/// the new configuration loaded.
pub proof fn law_save_is_all_or_nothing(
    memory: Seq<u8>,
    texts: config::DeviceTexts,
    done: nat,
    part: nat,
)
    requires
        memory.len() >= PARTITION_END,
        newest_is_clear(slots_in(memory)) || newest_without_first(slots_in(memory)),
        texts.valid(),
        save_has(memory, texts, done, part),
    ensures
        ({
            let records = slots_in(memory);
            let newest = latest(records);
            let after = latest(slots_in(save_reached(memory, texts, done, part)));
            if done == 2 && part == RECORD_LEN - COMMIT_OFFSET {
                newest_is_clear(records) || none_ahead(records) ==> after == Some(
                    StoredTexts {
                        texts,
                        generation: next_generation(newest),
                        slot: next_slot(newest),
                    },
                )
            } else {
                after == newest
            }
        }),
{
    let records = slots_in(memory);
    let newest = latest(records);
    lemma_latest_is_in_newest_slot(records);
    let content = lemma_save_reached(memory, texts, done, part);
    if done == 2 && part == RECORD_LEN - COMMIT_OFFSET {
        if newest_is_clear(records) {
            law_none_is_ahead_of_a_clear_newest(records);
        }
        if none_ahead(records) {
            law_saved_is_loaded(records, texts);
        }
    } else if done == 0 && part == 0 {
        assert(records.update(next_slot(newest), content) =~= records);
    } else {
        law_spoiled_slot_loses_nothing(records, content);
    }
}

/// Whether two states of the flash differ at most in the slot that is written
/// next.
pub open spec fn differ_in_next_slot(memory: Seq<u8>, reached: Seq<u8>) -> bool {
    let address = address_of(next_slot(latest(slots_in(memory))));
    &&& reached.len() == memory.len()
    &&& forall|a: int|
        0 <= a < memory.len() && !(address <= a < address + SLOT_SIZE) ==> #[trigger] reached[a] == memory[a]
}

proof fn lemma_slots_but_one(memory: Seq<u8>, reached: Seq<u8>)
    requires
        memory.len() >= PARTITION_END,
        differ_in_next_slot(memory, reached),
    ensures
        ({
            let slot = next_slot(latest(slots_in(memory)));
            &&& 0 <= slot < SLOT_COUNT
            &&& slots_in(reached) == slots_in(memory).update(slot, slots_in(reached)[slot])
        }),
{
    let records = slots_in(memory);
    let slot = next_slot(latest(records));
    let address = address_of(slot);
    lemma_latest_is_in_newest_slot(records);
    assert forall|i: int| 0 <= i < SLOT_COUNT && i != slot implies #[trigger] slots_in(reached)[i]
        =~= records[i] by {
        let other = address_of(i);
        assert(other + SLOT_SIZE <= address || address + SLOT_SIZE <= other);
        assert forall|k: int| 0 <= k < RECORD_LEN implies slots_in(reached)[i][k] == records[i][k] by {
            assert(reached[other + k] == memory[other + k]);
        }
    }
    assert(slots_in(reached) =~= records.update(slot, slots_in(reached)[slot]));
}

/// Once the slot that is written next has been erased, whatever it had come to
/// hold, the configuration is as it was, and slots that were written in turn
/// are so still.
pub proof fn law_erased_slot_loses_nothing(memory: Seq<u8>, reached: Seq<u8>)
    requires
        memory.len() >= PARTITION_END,
        newest_is_clear(slots_in(memory)) || newest_without_first(slots_in(memory)),
        differ_in_next_slot(memory, reached),
    ensures
        ({
            let newest = latest(slots_in(memory));
            let undone = slots_in(partly_done(reached, undo_step(next_slot(newest)), 1));
            &&& latest(undone) == newest
            &&& written_in_turn(slots_in(memory)) ==> written_in_turn(undone)
        }),
{
    let records = slots_in(memory);
    let slot = next_slot(latest(records));
    let undone = partly_done(reached, undo_step(slot), 1);
    let content = slots_in(undone)[slot];
    assert(differ_in_next_slot(memory, undone));
    lemma_slots_but_one(memory, undone);
    lemma_unmarked(records, content);
}

/// What the flash may hold when the action at a stage of a save begins, if it
/// held `memory` before the save.
pub open spec fn may_hold<E>(memory: Seq<u8>, stage: SaveStage<E>, before: Seq<u8>) -> bool {
    match stage {
        SaveStage::Erase => before == memory,
        SaveStage::WriteBody => before == partly_done(
            memory,
            undo_step(next_slot(latest(slots_in(memory)))),
            1,
        ),
        _ => differ_in_next_slot(memory, before),
    }
}

proof fn lemma_failed_erase(memory: Seq<u8>, part: nat)
    requires
        memory.len() >= PARTITION_END,
        newest_is_clear(slots_in(memory)) || newest_without_first(slots_in(memory)),
    ensures
        ({
            let newest = latest(slots_in(memory));
            let reached = slots_in(partly_done(memory, undo_step(next_slot(newest)), part));
            &&& latest(reached) == newest
            &&& written_in_turn(slots_in(memory)) ==> written_in_turn(reached)
        }),
{
    if part > 0 {
        law_erased_slot_loses_nothing(memory, memory);
        let step = undo_step(next_slot(latest(slots_in(memory))));
        assert(partly_done(memory, step, part) == partly_done(memory, step, 1));
    }
}

proof fn lemma_failed_body(memory: Seq<u8>, record: Seq<u8>, part: nat)
    requires
        memory.len() >= PARTITION_END,
        newest_is_clear(slots_in(memory)) || newest_without_first(slots_in(memory)),
        record.len() == RECORD_LEN,
    ensures
        ({
            let newest = latest(slots_in(memory));
            let slot = next_slot(newest);
            let erased = partly_done(memory, undo_step(slot), 1);
            let reached = slots_in(partly_done(erased, save_steps(slot, record)[1], part));
            &&& latest(reached) == newest
            &&& written_in_turn(slots_in(memory)) ==> written_in_turn(reached)
        }),
{
    let records = slots_in(memory);
    let slot = next_slot(latest(records));
    let erased = partly_done(memory, undo_step(slot), 1);
    let reached = partly_done(erased, save_steps(slot, record)[1], part);
    let content = slots_in(reached)[slot];
    assert(differ_in_next_slot(memory, reached));
    lemma_slots_but_one(memory, reached);
    assert(reached[address_of(slot) + RECORD_LEN - 1] == 0xff);
    lemma_unmarked(records, content);
}

/// A slot without a commit marker leaves the configuration as it was.
proof fn lemma_unmarked(records: Seq<Seq<u8>>, content: Seq<u8>)
    requires
        records.len() == SLOT_COUNT,
        newest_is_clear(records) || newest_without_first(records),
        content.len() == RECORD_LEN,
        content[RECORD_LEN - 1] == 0xff,
    ensures
        ({
            let after = records.update(next_slot(latest(records)), content);
            &&& latest(after) == latest(records)
            &&& written_in_turn(records) ==> written_in_turn(after)
        }),
{
    let marker = content.subrange(COMMIT_OFFSET as int, RECORD_LEN as int);
    assert(marker[3] == 0xff);
    assert(config::commit_marker()[3] != 0xff);
    assert(marker != config::commit_marker());
    config::law_uncommitted_is_not_read(content);
    law_spoiled_slot_loses_nothing(records, content);
    if written_in_turn(records) {
        lemma_spoiled_stays_in_turn(records, content);
    }
}

/// A save that fails leaves the configuration as it was. It ends while no
/// commit marker is in its slot, however far its last action came, or with the
/// action that takes it back. Where that action is carried out, it does not
/// matter what the slot had come to hold.
pub proof fn law_failed_save_changes_nothing<E>(
    memory: Seq<u8>,
    before: Seq<u8>,
    texts: config::DeviceTexts,
    generation: u32,
    record: Seq<u8>,
    stage: SaveStage<E>,
    outcome: FlashOutcome<E>,
    part: nat,
)
    requires
        memory.len() >= PARTITION_END,
        newest_is_clear(slots_in(memory)) || newest_without_first(slots_in(memory)),
        record.len() == RECORD_LEN,
        may_hold(memory, stage, before),
        save_progress(texts, generation, stage, outcome) matches SaveProgress::Done(result) && result is Err,
        stage is Undo ==> part > 0,
    ensures
        ({
            let newest = latest(slots_in(memory));
            let action = save_action(next_slot(newest), record, stage);
            let reached = slots_in(partly_done(before, action->Perform_0, part));
            &&& action is Perform
            &&& latest(reached) == newest
            &&& written_in_turn(slots_in(memory)) ==> written_in_turn(reached)
        }),
{
    let step = undo_step(next_slot(latest(slots_in(memory))));
    match stage {
        SaveStage::Erase => {
            lemma_failed_erase(memory, part);
        },
        SaveStage::WriteBody => {
            lemma_failed_body(memory, record, part);
        },
        _ => {
            law_erased_slot_loses_nothing(memory, before);
            assert(partly_done(before, step, part) == partly_done(before, step, 1));
        },
    }
}

/// A save that succeeds has the new configuration loaded: it ends with a record
/// that was read back from its slot and holds it.
pub proof fn law_successful_save_is_loaded<E>(
    memory: Seq<u8>,
    reached: Seq<u8>,
    texts: config::DeviceTexts,
    record: Seq<u8>,
    stage: SaveStage<E>,
    written: [u8; RECORD_LEN],
)
    requires
        memory.len() >= PARTITION_END,
        newest_is_clear(slots_in(memory)) || none_ahead(slots_in(memory)),
        differ_in_next_slot(memory, reached),
        written@ == slots_in(reached)[next_slot(latest(slots_in(memory)))],
        save_progress(
            texts,
            next_generation(latest(slots_in(memory))),
            stage,
            FlashOutcome::<E>::Read(written),
        ) == SaveProgress::<E>::Done(Ok(())),
    ensures
        ({
            let newest = latest(slots_in(memory));
            let slot = next_slot(newest);
            &&& save_action(slot, record, stage) == SaveStep::Read { address: address_of(slot) }
            &&& latest(slots_in(reached)) == Some(
                StoredTexts { texts, generation: next_generation(newest), slot },
            )
        }),
{
    let records = slots_in(memory);
    if newest_is_clear(records) {
        law_none_is_ahead_of_a_clear_newest(records);
    }
    lemma_slots_but_one(memory, reached);
    lemma_next_record_is_loaded(records, texts, written@);
}

/// A save never touches another slot than the one that is written next: from
/// stage to stage the flash holds what it may hold there, also where an action
/// failed on its way.
pub proof fn law_save_touches_one_slot<E>(
    memory: Seq<u8>,
    before: Seq<u8>,
    texts: config::DeviceTexts,
    generation: u32,
    record: Seq<u8>,
    stage: SaveStage<E>,
    outcome: FlashOutcome<E>,
    part: nat,
)
    requires
        memory.len() >= PARTITION_END,
        record.len() == RECORD_LEN,
        may_hold(memory, stage, before),
        save_progress(texts, generation, stage, outcome) is Continue,
        save_action(next_slot(latest(slots_in(memory))), record, stage) matches SaveStep::Perform(step) ==> (
        outcome is Failed || part == parts(step)),
    ensures
        ({
            let next = save_progress(texts, generation, stage, outcome)->Continue_0;
            match save_action(next_slot(latest(slots_in(memory))), record, stage) {
                SaveStep::Perform(step) => may_hold(memory, next, partly_done(before, step, part)),
                SaveStep::Read { .. } => may_hold(memory, next, before),
            }
        }),
{
}

/// A save that is undone changes nothing, wherever it was given up, and also
/// where it had run to its end.
pub proof fn law_undone_save_changes_nothing(
    memory: Seq<u8>,
    texts: config::DeviceTexts,
    done: nat,
    part: nat,
)
    requires
        memory.len() >= PARTITION_END,
        newest_is_clear(slots_in(memory)) || newest_without_first(slots_in(memory)),
        save_has(memory, texts, done, part),
    ensures
        ({
            let newest = latest(slots_in(memory));
            let reached = save_reached(memory, texts, done, part);
            latest(slots_in(partly_done(reached, undo_step(next_slot(newest)), 1))) == newest
        }),
{
    let newest = latest(slots_in(memory));
    let steps = save_steps(next_slot(newest), config::encoded(texts, next_generation(newest)));
    reveal_with_fuel(done_steps, 4);
    let reached = save_reached(memory, texts, done, part);
    assert(reached.len() == memory.len());
    law_erased_slot_loses_nothing(memory, reached);
}

proof fn lemma_clear_below_next(newest: u32, g: u32)
    requires
        g == newest || control::comes_after(newest, g),
    ensures
        !control::comes_after(g, newest.wrapping_add(1)),
{
}

/// Slots that were written in turn have their newest generation clear, and stay
/// written in turn through any save, wherever it is cut short.
pub proof fn law_saves_stay_in_turn(memory: Seq<u8>, texts: config::DeviceTexts, done: nat, part: nat)
    requires
        memory.len() >= PARTITION_END,
        written_in_turn(slots_in(memory)),
        texts.valid(),
        save_has(memory, texts, done, part),
    ensures
        newest_is_clear(slots_in(memory)),
        written_in_turn(slots_in(save_reached(memory, texts, done, part))),
{
    let records = slots_in(memory);
    let newest = latest(records);
    let found = generations(records);
    lemma_newest_of_turn(records);
    if let Some(stored) = newest {
        assert forall|i: int| 0 <= i < found.len() implies ((#[trigger] found[i]) matches Some(g) ==> g
            == stored.generation || control::comes_after(stored.generation, g)) by {
            if found[i] is Some {
                lemma_young_is_clear(stored.generation, found[i]->0);
            }
        }
    }
    let content = lemma_save_reached(memory, texts, done, part);
    if done == 2 && part == RECORD_LEN - COMMIT_OFFSET {
        lemma_saved_stays_in_turn(records, texts);
    } else if done == 0 && part == 0 {
        assert(records.update(next_slot(newest), content) =~= records);
    } else {
        lemma_spoiled_stays_in_turn(records, content);
    }
}

proof fn lemma_young_is_clear(newest: u32, g: u32)
    requires
        (newest - g) % 0x1_0000_0000 < SLOT_COUNT,
    ensures
        g == newest || control::comes_after(newest, g),
{
}

/// The slots lie side by side in the partition, each in a sector of its own.
pub proof fn law_slots_lie_in_the_partition(a: int, b: int)
    requires
        0 <= a < b < 6,
    ensures
        address_of(a) == 0x9000 + 0x1000 * a,
        0x9000 <= address_of(a),
        address_of(a) + 0x1000 <= address_of(b),
        address_of(b) == 0x9000 + 0x1000 * b,
        address_of(b) + 0x1000 <= 0xf000,
{
}

/// A configuration is loaded from its slot where its generation is less than
/// half a turn of the counter ahead of every other, or equal to some of those
/// behind it. Where no slot holds one, none is loaded.
pub proof fn law_newest_is_loaded(records: Seq<Seq<u8>>, slot: int, texts: config::DeviceTexts, generation: u32)
    ensures
        (forall|i: int| 0 <= i < records.len() ==> (#[trigger] config::decoded(records[i])) is Err) ==> latest(
            records,
        ) is None,
        is_ahead(records, slot, texts, generation) ==> latest(records) == Some(
            StoredTexts { texts, generation, slot },
        ),
{
    let found = generations(records);
    lemma_latest_is_in_newest_slot(records);
    assert forall|i: int| 0 <= i < records.len() implies (#[trigger] found[i]) == match config::decoded(records[i]) {
        Ok((_, other)) => Some(other),
        Err(_) => None,
    } by {}
    if forall|i: int| 0 <= i < records.len() ==> (#[trigger] config::decoded(records[i])) is Err {
        if let Some(newest) = newest_slot(found) {
            assert(config::decoded(records[newest]) is Err);
        }
    }
    if is_ahead(records, slot, texts, generation) {
        assert(found[slot] == Some(generation));
        assert forall|i: int| 0 <= i < found.len() implies ((#[trigger] found[i]) matches Some(g) ==> g == generation
            || control::comes_after(generation, g)) by {
            assert(i != slot ==> (config::decoded(records[i]) matches Ok((_, other)) ==> (generation - other)
                % 0x1_0000_0000 < 0x8000_0000));
        }
        assert forall|i: int| 0 <= i < slot implies #[trigger] found[i] != found[slot] by {
            assert(config::decoded(records[i]) matches Ok((_, other)) ==> 0 < (generation - other) % 0x1_0000_0000);
        }
        lemma_clear_is_newest(found, slot);
    }
}

/// Whether a slot holds this configuration, and its generation is ahead of that
/// of every other slot by less than half a turn of the counter. Slots behind it
/// may hold the same generation.
pub open spec fn is_ahead(
    records: Seq<Seq<u8>>,
    slot: int,
    texts: config::DeviceTexts,
    generation: u32,
) -> bool {
    &&& 0 <= slot < records.len()
    &&& config::decoded(records[slot]) == Ok::<(config::DeviceTexts, u32), config::ConfigError>(
        (texts, generation),
    )
    &&& forall|i: int|
        0 <= i < records.len() && i != slot ==> ((#[trigger] config::decoded(records[i])) matches Ok((_, other))
            ==> (generation - other) % 0x1_0000_0000 < 0x8000_0000 && (i < slot ==> other != generation))
}

/// One more slot is the newest where it holds a configuration and none was found
/// before, or its generation is ahead of the newest so far by 1 to 2^31 - 1,
/// counting round. Otherwise the newest so far stays.
pub proof fn law_one_more_slot(records: Seq<Seq<u8>>, record: Seq<u8>)
    ensures
        match config::decoded(record) {
            Err(_) => latest(records.push(record)) == latest(records),
            Ok((texts, generation)) => if latest(records) is None || 0 < (generation - latest(records)->0.generation)
                % 0x1_0000_0000 < 0x8000_0000 {
                latest(records.push(record)) == Some(
                    StoredTexts { texts, generation, slot: records.len() as int },
                )
            } else {
                latest(records.push(record)) == latest(records)
            },
        },
        latest(seq![]) is None,
{
    let more = records.push(record);
    assert(more.drop_last() =~= records);
    assert(more.last() == record);
}

/// What is saved goes to the slot behind the newest, or to the first behind the
/// last, as the next generation. The first save goes to the first slot as
/// generation one.
pub proof fn law_slots_take_turns(newest: StoredTexts)
    requires
        0 <= newest.slot < 6,
    ensures
        newest.slot < 5 ==> next_slot(Some(newest)) == newest.slot + 1,
        newest.slot == 5 ==> next_slot(Some(newest)) == 0,
        newest.generation < 0xffff_ffff ==> next_generation(Some(newest)) == newest.generation + 1,
        newest.generation == 0xffff_ffff ==> next_generation(Some(newest)) == 0,
        next_slot(None) == 0,
        next_generation(None) == 1,
{
}

/// A save erases its slot, writes all of the record but the commit marker, then
/// the marker, and reads the record back. It succeeds where what is read back
/// holds the configuration and its generation.
pub proof fn law_save_goes_step_by_step<E>(
    slot: int,
    record: Seq<u8>,
    texts: config::DeviceTexts,
    generation: u32,
    written: [u8; RECORD_LEN],
)
    requires
        0 <= slot < 6,
        record.len() == 256,
    ensures
        ({
            let start = 0x9000 + 0x1000 * slot;
            let go = |stage: SaveStage<E>|
                save_progress(texts, generation, stage, FlashOutcome::<E>::Performed);
            let holds_it = config::decoded(written@) == Ok::<(config::DeviceTexts, u32), config::ConfigError>(
                (texts, generation),
            );
            &&& save_action(slot, record, SaveStage::<E>::Erase) == SaveStep::Perform(
                FlashStep::Erase { from: start, to: start + 0x1000 },
            )
            &&& go(SaveStage::Erase) == SaveProgress::Continue(SaveStage::<E>::WriteBody)
            &&& save_action(slot, record, SaveStage::<E>::WriteBody) == SaveStep::Perform(
                FlashStep::Write { address: start, bytes: record.take(252) },
            )
            &&& go(SaveStage::WriteBody) == SaveProgress::Continue(SaveStage::<E>::WriteMarker)
            &&& save_action(slot, record, SaveStage::<E>::WriteMarker) == SaveStep::Perform(
                FlashStep::Write { address: start + 252, bytes: record.skip(252) },
            )
            &&& go(SaveStage::WriteMarker) == SaveProgress::Continue(SaveStage::<E>::ReadBack)
            &&& save_action(slot, record, SaveStage::<E>::ReadBack) == SaveStep::Read { address: start }
            &&& save_progress(
                texts,
                generation,
                SaveStage::<E>::ReadBack,
                FlashOutcome::<E>::Read(written),
            ) == if holds_it {
                SaveProgress::<E>::Done(Ok(()))
            } else {
                SaveProgress::Continue(SaveStage::Undo(ConfigStorageError::VerificationFailed))
            }
        }),
{
    assert(record.subrange(0, 252) =~= record.take(252));
    assert(record.subrange(252, 256) =~= record.skip(252));
}

/// A save that the flash fails ends with that error: at once before the commit
/// marker is written, and after its slot was erased once more from then on.
pub proof fn law_failed_save_tells_why<E>(
    slot: int,
    record: Seq<u8>,
    texts: config::DeviceTexts,
    generation: u32,
    error: E,
    reason: ConfigStorageError<E>,
    outcome: FlashOutcome<E>,
)
    requires
        0 <= slot < 6,
    ensures
        ({
            let start = 0x9000 + 0x1000 * slot;
            let fail = |stage: SaveStage<E>|
                save_progress(texts, generation, stage, FlashOutcome::<E>::Failed(error));
            let ends = SaveProgress::<E>::Done(Err(ConfigStorageError::Flash(error)));
            let undoes = SaveProgress::Continue(SaveStage::<E>::Undo(ConfigStorageError::Flash(error)));
            &&& fail(SaveStage::Erase) == ends
            &&& fail(SaveStage::WriteBody) == ends
            &&& fail(SaveStage::WriteMarker) == undoes
            &&& fail(SaveStage::ReadBack) == undoes
            &&& save_action(slot, record, SaveStage::<E>::Undo(reason)) == SaveStep::Perform(
                FlashStep::Erase { from: start, to: start + 0x1000 },
            )
            &&& save_progress(texts, generation, SaveStage::<E>::Undo(reason), outcome) == SaveProgress::<E>::Done(
                Err(reason),
            )
        }),
{
}

/// The records of the slots are taken as they are, in their order.
pub proof fn law_records_are_taken_as_they_are(records: Seq<[u8; RECORD_LEN]>, i: int)
    requires
        0 <= i < records.len(),
    ensures
        slots(records).len() == records.len(),
        slots(records)[i] == records[i]@,
{
}

} // verus!
