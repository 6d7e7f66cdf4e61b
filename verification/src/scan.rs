//! The scan of the game's zombie table.
//!
//! Six pointer chains, all starting at the game's base address, locate the
//! first zombie's body hit points, two armour hit points, removal flag and
//! x and y position.  The table holds `ZOMBIE_SLOTS` records, one every
//! `ZOMBIE_STRIDE` bytes; for each slot the six fields are read in that
//! order, each into a buffer of its own that keeps its last value, and the
//! slot counts as a zombie when it is not removed and its total hit points
//! lie in `1..=MAX_LIVE_HP`.

use vstd::prelude::*;
use crate::chain::{ReadRequest, PointerChain, chain_value, low_word, request_at, request_for};

verus! {

/// The game's base address, where every chain starts.
pub const BASE_ADDRESS: usize = 0x006A_9EC0;

/// Number of records in the zombie table.
pub const ZOMBIE_SLOTS: usize = 1024;

/// Distance in bytes between two records of the zombie table.
pub const ZOMBIE_STRIDE: usize = 0x15C;

/// Number of fields read per record.
pub const FIELD_COUNT: usize = 6;

/// Number of levels in each field's pointer chain.
pub const CHAIN_LEVELS: usize = 3;

/// Number of reads spent on the pointer chains before the table scan.
pub const PRELUDE_READS: usize = 18;

/// Largest total of hit points that a genuine zombie has.
pub const MAX_LIVE_HP: u32 = 60000;

/// Field index of the body's hit points; fields are read in index order.
pub const FIELD_BODY_HP: usize = 0;

/// Field index of the first armour's hit points.
pub const FIELD_ARMOR_HP: usize = 1;

/// Field index of the second armour's hit points.
pub const FIELD_SECOND_ARMOR_HP: usize = 2;

/// Field index of the flag that is non-zero once a zombie is gone.
pub const FIELD_REMOVED: usize = 3;

/// Field index of the x position, an `f32`.
pub const FIELD_X: usize = 4;

/// Field index of the y position, an `f32`.
pub const FIELD_Y: usize = 5;

/// Offset of a field inside the first record.
pub open spec fn field_offset(field: int) -> usize {
    if field == 0 {
        0xC8
    } else if field == 1 {
        0xD0
    } else if field == 2 {
        0xDC
    } else if field == 3 {
        0xEC
    } else if field == 4 {
        0x2C
    } else {
        0x30
    }
}

/// The offsets of the pointer chain that locates a field of the first record.
pub open spec fn field_chain(field: int) -> Seq<usize> {
    seq![0x768usize, 0x90usize, field_offset(field)]
}

pub fn field_chain_offsets(field: usize) -> (r: Vec<usize>)
    requires
        field < FIELD_COUNT,
    ensures
        r@ == field_chain(field as int),
{
    let last: usize = if field == 0 {
        0xC8
    } else if field == 1 {
        0xD0
    } else if field == 2 {
        0xDC
    } else if field == 3 {
        0xEC
    } else if field == 4 {
        0x2C
    } else {
        0x30
    };
    let r: Vec<usize> = vec![0x768, 0x90, last];
    assert(r@ =~= field_chain(field as int));
    r
}

/// A zombie found in the table: the IEEE 754 bit patterns of its `f32`
/// x and y positions, as stored in the game.
#[derive(Clone, Copy, Debug, PartialEq, Eq, Structural)]
pub struct Zombie {
    pub x_bits: u32,
    pub y_bits: u32,
}

/// What the scan does next.
#[derive(Clone, Copy, Debug, PartialEq, Eq, Structural)]
pub enum ScanStep {
    /// Read one word and hand back what the buffer's low word holds after it.
    Read(ReadRequest),
    /// Every record has been read.
    Done,
    /// An address went past the largest address; the scan stops.
    Overflow,
}

/// Total hit points of a record: the three hit-point words added and taken
/// modulo 2^32.
pub open spec fn total_hp(body: u32, armor: u32, second_armor: u32) -> int {
    (body + armor + second_armor) % 0x1_0000_0000int
}

/// A record holds a genuine zombie: not removed, and its total hit points
/// lie in `1..=MAX_LIVE_HP`.
pub open spec fn zombie_is_live(body: u32, armor: u32, second_armor: u32, removed: u32) -> bool {
    &&& removed == 0
    &&& 0 < total_hp(body, armor, second_armor)
    &&& total_hp(body, armor, second_armor) <= MAX_LIVE_HP
}

pub fn is_live_zombie(body: u32, armor: u32, second_armor: u32, removed: u32) -> (r: bool)
    ensures
        r == zombie_is_live(body, armor, second_armor, removed),
{
    let sum: u64 = body as u64 + armor as u64 + second_armor as u64;
    let hp: u64 = sum % 0x1_0000_0000u64;
    removed == 0 && hp > 0 && hp <= MAX_LIVE_HP as u64
}

/// A record is live exactly when it is not removed and the sum of its three
/// hit-point words, taken modulo 2^32, lies in `1..=60000`; so liveness
/// depends on the hit points only through that sum.
pub proof fn law_liveness(
    body: u32,
    armor: u32,
    second_armor: u32,
    removed: u32,
    other_body: u32,
    other_armor: u32,
    other_second_armor: u32,
)
    ensures
        zombie_is_live(body, armor, second_armor, removed) <==> (removed == 0 && 1 <= (body as int
            + armor as int + second_armor as int) % 0x1_0000_0000int <= 60000),
        (body as int + armor as int + second_armor as int) % 0x1_0000_0000int == (other_body as int
            + other_armor as int + other_second_armor as int) % 0x1_0000_0000int ==> zombie_is_live(
            body,
            armor,
            second_armor,
            removed,
        ) == zombie_is_live(other_body, other_armor, other_second_armor, removed),
{
}

/// The address at which a field's chain resolved, given every word read.
pub open spec fn field_base(reads: Seq<u32>, field: int) -> Option<usize> {
    chain_value(BASE_ADDRESS, field_chain(field), reads.subrange(3 * field, 3 * field + 3))
}

/// The word read for a field of a record.
pub open spec fn slot_word(reads: Seq<u32>, slot: int, field: int) -> u32 {
    reads[PRELUDE_READS + 6 * slot + field]
}

pub open spec fn slot_is_live(reads: Seq<u32>, slot: int) -> bool {
    zombie_is_live(
        slot_word(reads, slot, FIELD_BODY_HP as int),
        slot_word(reads, slot, FIELD_ARMOR_HP as int),
        slot_word(reads, slot, FIELD_SECOND_ARMOR_HP as int),
        slot_word(reads, slot, FIELD_REMOVED as int),
    )
}

pub open spec fn slot_zombie(reads: Seq<u32>, slot: int) -> Zombie {
    Zombie {
        x_bits: slot_word(reads, slot, FIELD_X as int),
        y_bits: slot_word(reads, slot, FIELD_Y as int),
    }
}

/// The zombies among the first `slots` records, in table order.
pub open spec fn live_zombies(reads: Seq<u32>, slots: int) -> Seq<Zombie>
    decreases slots,
{
    if slots <= 0 {
        Seq::empty()
    } else if slot_is_live(reads, slots - 1) {
        live_zombies(reads, slots - 1).push(slot_zombie(reads, slots - 1))
    } else {
        live_zombies(reads, slots - 1)
    }
}

/// Number of records whose six fields have all been read.
pub open spec fn completed_slots(reads: Seq<u32>) -> int {
    if reads.len() < PRELUDE_READS {
        0
    } else if (reads.len() - PRELUDE_READS) / 6 > ZOMBIE_SLOTS {
        ZOMBIE_SLOTS as int
    } else {
        (reads.len() - PRELUDE_READS) / 6
    }
}

/// The zombies found by a scan that has received `reads`.
pub open spec fn found_zombies(reads: Seq<u32>) -> Seq<Zombie> {
    live_zombies(reads, completed_slots(reads))
}

/// The read of a field of a record, once every chain is resolved.
pub open spec fn slot_step(reads: Seq<u32>, slot: int, field: int) -> ScanStep {
    if slot >= ZOMBIE_SLOTS {
        ScanStep::Done
    } else {
        match field_base(reads, field) {
            None => ScanStep::Overflow,
            Some(base) => {
                let address: int = base + ZOMBIE_STRIDE * slot;
                if address > usize::MAX {
                    ScanStep::Overflow
                } else {
                    ScanStep::Read(
                        ReadRequest {
                            address: address as usize,
                            prefill: if slot == 0 {
                                0
                            } else {
                                slot_word(reads, slot - 1, field)
                            },
                        },
                    )
                }
            },
        }
    }
}

/// The step that follows the words `reads`, every earlier step having been
/// a read.
#[verifier::opaque]
pub open spec fn advance(reads: Seq<u32>) -> ScanStep {
    let n: int = reads.len() as int;
    if n == 0 {
        ScanStep::Read(request_at(BASE_ADDRESS))
    } else if n <= PRELUDE_READS {
        let field: int = (n - 1) / 3;
        match chain_value(BASE_ADDRESS, field_chain(field), reads.subrange(3 * field, n)) {
            None => ScanStep::Overflow,
            Some(current) => if n % 3 != 0 {
                ScanStep::Read(request_at(current))
            } else if n < PRELUDE_READS {
                ScanStep::Read(request_at(BASE_ADDRESS))
            } else {
                slot_step(reads, 0, 0)
            },
        }
    } else {
        slot_step(reads, (n - PRELUDE_READS) / 6, (n - PRELUDE_READS) % 6)
    }
}

/// What a scan does after it has received `reads`: the first step that is
/// not a read stays.
#[verifier::opaque]
pub open spec fn scan_step(reads: Seq<u32>) -> ScanStep
    decreases reads.len(),
{
    if reads.len() == 0 {
        advance(reads)
    } else {
        match scan_step(reads.drop_last()) {
            ScanStep::Read(_) => advance(reads),
            other => other,
        }
    }
}



/// The indices of the records among the first `slots` that hold a zombie.
pub open spec fn live_slots(reads: Seq<u32>, slots: int) -> Seq<int>
    decreases slots,
{
    if slots <= 0 {
        Seq::empty()
    } else if slot_is_live(reads, slots - 1) {
        live_slots(reads, slots - 1).push(slots - 1)
    } else {
        live_slots(reads, slots - 1)
    }
}

/// The zombies found among the first `slots` records are those of the
/// records that hold a zombie, each once, in table order: `live_slots` runs
/// upward through exactly those records.
pub proof fn law_zombies_are_the_live_slots(reads: Seq<u32>, slots: int)
    requires
        0 <= slots,
    ensures
        live_zombies(reads, slots) == live_slots(reads, slots).map_values(
            |i: int| slot_zombie(reads, i),
        ),
        forall|t: int, u: int|
            0 <= t < u < live_slots(reads, slots).len() ==> #[trigger] live_slots(reads, slots)[t]
                < #[trigger] live_slots(reads, slots)[u],
        forall|t: int|
            0 <= t < live_slots(reads, slots).len() ==> {
                let i: int = #[trigger] live_slots(reads, slots)[t];
                0 <= i < slots && slot_is_live(reads, i)
            },
        forall|i: int|
            0 <= i < slots && #[trigger] slot_is_live(reads, i) ==> live_slots(
                reads,
                slots,
            ).contains(i),
    decreases slots,
{
    if slots > 0 {
        law_zombies_are_the_live_slots(reads, slots - 1);
        let prev: Seq<int> = live_slots(reads, slots - 1);
        if slot_is_live(reads, slots - 1) {
            assert(prev.push(slots - 1).map_values(|i: int| slot_zombie(reads, i)) =~= prev.map_values(
                |i: int| slot_zombie(reads, i),
            ).push(slot_zombie(reads, slots - 1)));
            assert forall|i: int|
                0 <= i < slots && #[trigger] slot_is_live(reads, i) implies live_slots(
                reads,
                slots,
            ).contains(i) by {
                if i < slots - 1 {
                    let t: int = choose|t: int| 0 <= t < prev.len() && prev[t] == i;
                    assert(live_slots(reads, slots)[t] == i);
                } else {
                    assert(live_slots(reads, slots)[prev.len() as int] == i);
                }
            }
        }
    }
}

/// What a scan that has received `reads` reports: one zombie for each live
/// record among the records read in full (the first
/// `min((reads.len() - 18) / 6, 1024)` records once the chains are
/// resolved, none before), taken in table order, with that record's x and y
/// words.  `live_slots` runs upward through exactly those live records.
pub proof fn law_found_zombies_are_every_live_record(reads: Seq<u32>)
    ensures
        ({
            let done: int = if reads.len() < 18 {
                0
            } else if (reads.len() - 18) / 6 > 1024 {
                1024
            } else {
                (reads.len() - 18) / 6
            };
            let slots: Seq<int> = live_slots(reads, done);
            &&& found_zombies(reads).len() == slots.len()
            &&& forall|t: int|
                0 <= t < slots.len() ==> #[trigger] found_zombies(reads)[t] == Zombie {
                    x_bits: reads[18 + 6 * slots[t] + 4],
                    y_bits: reads[18 + 6 * slots[t] + 5],
                }
            &&& forall|t: int, u: int|
                0 <= t < u < slots.len() ==> #[trigger] slots[t] < #[trigger] slots[u]
            &&& forall|t: int|
                0 <= t < slots.len() ==> 0 <= #[trigger] slots[t] < done && slot_is_live(
                    reads,
                    slots[t],
                )
            &&& forall|i: int| 0 <= i < done && #[trigger] slot_is_live(reads, i) ==> slots.contains(i)
        }),
{
    let done: int = completed_slots(reads);
    law_zombies_are_the_live_slots(reads, done);
    let slots: Seq<int> = live_slots(reads, done);
    assert forall|t: int| 0 <= t < slots.len() implies #[trigger] found_zombies(reads)[t]
        == Zombie { x_bits: reads[18 + 6 * slots[t] + 4], y_bits: reads[18 + 6 * slots[t] + 5] } by {
        assert(found_zombies(reads)[t] == slot_zombie(reads, slots[t]));
    }
}

/// Some field's chain passes the largest address among the words read.
pub open spec fn chain_prefix_value(reads: Seq<u32>, field: int, level: int) -> Option<usize> {
    chain_value(BASE_ADDRESS, field_chain(field), reads.subrange(3 * field, 3 * field + level))
}

/// The address of a record's field, from the field's resolved base.
pub open spec fn table_address(reads: Seq<u32>, field: int, slot: int) -> int {
    field_base(reads, field).unwrap() + ZOMBIE_STRIDE * slot
}

/// Some address that the scan would compute passes the largest address:
/// a level of a field's chain, or a record's field within the table.
pub open spec fn some_address_overflows(reads: Seq<u32>) -> bool {
    ||| exists|field: int, level: int|
        0 <= field < FIELD_COUNT && 0 < level <= CHAIN_LEVELS && 3 * field + level <= reads.len()
            && (#[trigger] chain_prefix_value(reads, field, level)) is None
    ||| exists|field: int, slot: int|
        0 <= field < FIELD_COUNT && 0 <= slot < ZOMBIE_SLOTS && reads.len() >= PRELUDE_READS
            && field_base(reads, field) is Some && #[trigger] table_address(reads, field, slot)
            > usize::MAX
}

proof fn lemma_overflow_survives_push(reads: Seq<u32>, word: u32)
    requires
        some_address_overflows(reads),
    ensures
        some_address_overflows(reads.push(word)),
{
    let longer: Seq<u32> = reads.push(word);
    if exists|field: int, level: int|
        0 <= field < FIELD_COUNT && 0 < level <= CHAIN_LEVELS && 3 * field + level <= reads.len()
            && (#[trigger] chain_prefix_value(reads, field, level)) is None {
        let (field, level): (int, int) = choose|field: int, level: int|
            0 <= field < FIELD_COUNT && 0 < level <= CHAIN_LEVELS && 3 * field + level
                <= reads.len() && (#[trigger] chain_prefix_value(reads, field, level)) is None;
        lemma_push_keeps_subrange(reads, word, 3 * field, 3 * field + level);
        assert(chain_prefix_value(longer, field, level) is None);
    } else {
        let (field, slot): (int, int) = choose|field: int, slot: int|
            0 <= field < FIELD_COUNT && 0 <= slot < ZOMBIE_SLOTS && reads.len() >= PRELUDE_READS
                && field_base(reads, field) is Some && #[trigger] table_address(reads, field, slot)
                > usize::MAX;
        lemma_push_keeps_subrange(reads, word, 3 * field, 3 * field + 3);
        assert(table_address(longer, field, slot) > usize::MAX);
    }
}

/// The scan stops with `Overflow` only when an address that it computes
/// passes the largest address; wherever every address fits, the scan goes
/// on reading (and, by `law_scan_covers_every_slot`, reads every record).
pub proof fn law_overflow_only_past_the_address_space(reads: Seq<u32>)
    ensures
        scan_step(reads) == ScanStep::Overflow ==> some_address_overflows(reads),
    decreases reads.len(),
{
    reveal(scan_step);
    if reads.len() > 0 {
        law_overflow_only_past_the_address_space(reads.drop_last());
        if scan_step(reads.drop_last()) == ScanStep::Overflow {
            assert(reads.drop_last().push(reads.last()) =~= reads);
            lemma_overflow_survives_push(reads.drop_last(), reads.last());
            return;
        }
    }
    if scan_step(reads) == ScanStep::Overflow {
        assert(advance(reads) == ScanStep::Overflow);
        reveal(advance);
        let n: int = reads.len() as int;
        if n == 0 {
        } else if n <= PRELUDE_READS {
            let field: int = (n - 1) / 3;
            let level: int = n - 3 * field;
            if chain_prefix_value(reads, field, level) is None {
                assert(some_address_overflows(reads));
            } else {
                assert(n == PRELUDE_READS);
                lemma_slot_overflow(reads, 0, 0);
            }
        } else {
            lemma_slot_overflow(reads, (n - PRELUDE_READS) / 6, (n - PRELUDE_READS) % 6);
        }
    }
}

proof fn lemma_slot_overflow(reads: Seq<u32>, slot: int, field: int)
    requires
        reads.len() >= PRELUDE_READS,
        0 <= slot,
        0 <= field < FIELD_COUNT,
        slot_step(reads, slot, field) == ScanStep::Overflow,
    ensures
        some_address_overflows(reads),
{
    if field_base(reads, field) is None {
        assert(chain_prefix_value(reads, field, 3) is None);
    } else {
        assert(table_address(reads, field, slot) > usize::MAX);
    }
}

/// A step that is a read is the one the words call for.
proof fn lemma_read_step_is_advance(reads: Seq<u32>)
    requires
        scan_step(reads) is Read,
    ensures
        scan_step(reads) == advance(reads),
{
    reveal(scan_step);
}

/// The scan does not finish before it has read all six fields of every
/// record: with fewer words than the chains and the whole table take, the
/// step is a read or an overflow.
pub proof fn law_scan_covers_every_slot(reads: Seq<u32>)
    requires
        reads.len() < PRELUDE_READS + FIELD_COUNT * ZOMBIE_SLOTS,
    ensures
        scan_step(reads) != ScanStep::Done,
    decreases reads.len(),
{
    reveal(scan_step);
    reveal(advance);
    if reads.len() > 0 {
        law_scan_covers_every_slot(reads.drop_last());
    }
    if reads.len() > PRELUDE_READS {
        assert((reads.len() - PRELUDE_READS) / 6 < ZOMBIE_SLOTS);
    }
}

/// Where each read goes and what its buffer holds before it: while the
/// chains resolve, at the value that the current field's chain has reached,
/// into a buffer that holds that value; then at the record's field, that is
/// the field's resolved base plus `ZOMBIE_STRIDE` times the record's index,
/// into the field's buffer, which holds 0 at the first record and after that
/// the word last read for the same field.
pub proof fn law_read_addresses(reads: Seq<u32>)
    requires
        scan_step(reads) is Read,
    ensures
        reads.len() < PRELUDE_READS ==> {
            let field: int = reads.len() as int / 3;
            scan_step(reads)->Read_0.address == chain_value(
                BASE_ADDRESS,
                field_chain(field),
                reads.subrange(3 * field, reads.len() as int),
            ).unwrap()
        },
        reads.len() < PRELUDE_READS ==> scan_step(reads)->Read_0.prefill == low_word(
            scan_step(reads)->Read_0.address,
        ),
        reads.len() >= PRELUDE_READS ==> {
            let slot: int = (reads.len() - PRELUDE_READS) / 6;
            let field: int = (reads.len() - PRELUDE_READS) % 6;
            &&& slot < ZOMBIE_SLOTS
            &&& field_base(reads, field) is Some
            &&& scan_step(reads)->Read_0.address == field_base(reads, field).unwrap()
                + ZOMBIE_STRIDE * slot
            &&& scan_step(reads)->Read_0.prefill == if slot == 0 {
                0
            } else {
                slot_word(reads, slot - 1, field)
            }
        },
{
    lemma_read_step_is_advance(reads);
    reveal(advance);
    let n: int = reads.len() as int;
    if 0 < n < PRELUDE_READS && n % 3 == 0 {
        assert(reads.subrange(n, n) =~= Seq::<u32>::empty());
    }
    if n == PRELUDE_READS {
        assert(reads.subrange(15, 18) == reads.subrange(3 * ((n - 1) / 3), n));
    }
}

/// After a read, the scan takes the step that the new words call for.
proof fn lemma_scan_step_push(reads: Seq<u32>, word: u32)
    requires
        scan_step(reads) is Read,
    ensures
        scan_step(reads.push(word)) == advance(reads.push(word)),
{
    reveal(scan_step);
    assert(reads.push(word).drop_last() =~= reads);
}

/// The step after a word of a field's chain.
proof fn lemma_advance_in_chain(reads: Seq<u32>, field: int, level: int)
    requires
        0 <= field < FIELD_COUNT,
        0 <= level < CHAIN_LEVELS,
        reads.len() == 3 * field + level + 1,
    ensures
        advance(reads) == (match chain_value(
            BASE_ADDRESS,
            field_chain(field),
            reads.subrange(3 * field, reads.len() as int),
        ) {
            None => ScanStep::Overflow,
            Some(current) => if level + 1 < CHAIN_LEVELS {
                ScanStep::Read(request_at(current))
            } else if field + 1 < FIELD_COUNT {
                ScanStep::Read(request_at(BASE_ADDRESS))
            } else {
                slot_step(reads, 0, 0)
            },
        }),
{
    reveal(advance);
    assert((reads.len() - 1) / 3 == field);
    assert(reads.len() % 3 == (level + 1) % 3);
}

/// The step after a word of a record.
proof fn lemma_advance_in_table(reads: Seq<u32>, slot: int, field: int)
    requires
        0 <= slot,
        0 <= field < FIELD_COUNT,
        reads.len() == PRELUDE_READS + 6 * slot + field + 1,
    ensures
        advance(reads) == (if field + 1 < FIELD_COUNT {
            slot_step(reads, slot, field + 1)
        } else {
            slot_step(reads, slot + 1, 0)
        }),
{
    reveal(advance);
    if field + 1 < FIELD_COUNT {
        assert((6 * slot + field + 1) / 6 == slot);
        assert((6 * slot + field + 1) % 6 == field + 1);
    } else {
        assert((6 * slot + field + 1) / 6 == slot + 1);
        assert((6 * slot + field + 1) % 6 == 0);
    }
}

/// Pushing a word leaves every range of the earlier words as it was.
proof fn lemma_push_keeps_subrange(reads: Seq<u32>, word: u32, start: int, end: int)
    requires
        0 <= start <= end <= reads.len(),
    ensures
        reads.push(word).subrange(start, end) == reads.subrange(start, end),
{
    assert(reads.push(word).subrange(start, end) =~= reads.subrange(start, end));
}

/// The zombies of complete records do not change when a word is pushed.
proof fn lemma_live_zombies_push(reads: Seq<u32>, word: u32, slots: int)
    requires
        0 <= slots,
        PRELUDE_READS + 6 * slots <= reads.len(),
    ensures
        live_zombies(reads.push(word), slots) == live_zombies(reads, slots),
    decreases slots,
{
    if slots > 0 {
        lemma_live_zombies_push(reads, word, slots - 1);
    }
}

/// The step of a record's field, from the resolved bases and the buffers.
fn slot_request(bases: &Vec<usize>, words: &Vec<u32>, slot: usize, field: usize) -> (r: ScanStep)
    requires
        bases.len() == FIELD_COUNT,
        words.len() == FIELD_COUNT,
        field < FIELD_COUNT,
        slot <= ZOMBIE_SLOTS,
    ensures
        r == (if slot >= ZOMBIE_SLOTS {
            ScanStep::Done
        } else if bases@[field as int] + ZOMBIE_STRIDE * slot > usize::MAX {
            ScanStep::Overflow
        } else {
            ScanStep::Read(
                ReadRequest {
                    address: (bases@[field as int] + ZOMBIE_STRIDE * slot) as usize,
                    prefill: if slot == 0 {
                        0
                    } else {
                        words@[field as int]
                    },
                },
            )
        }),
{
    if slot >= ZOMBIE_SLOTS {
        return ScanStep::Done;
    }
    let offset: usize = ZOMBIE_STRIDE * slot;
    match bases[field].checked_add(offset) {
        None => ScanStep::Overflow,
        Some(address) => {
            let prefill: u32 = if slot == 0 {
                0
            } else {
                words[field]
            };
            ScanStep::Read(ReadRequest { address, prefill })
        },
    }
}

/// A scan of the zombie table, driven one read at a time.
pub struct ZombieScan {
    chain: PointerChain,
    bases: Vec<usize>,
    slot: usize,
    field: usize,
    words: Vec<u32>,
    zombies: Vec<Zombie>,
    step: ScanStep,
    reads: Ghost<Seq<u32>>,
}

impl ZombieScan {
    /// Every word handed to the scan so far, in order.
    pub closed spec fn reads(&self) -> Seq<u32> {
        self.reads@
    }

    closed spec fn bases_resolved(&self) -> bool {
        &&& self.bases.len() <= FIELD_COUNT
        &&& forall|k: int|
            0 <= k < self.bases.len() ==> field_base(self.reads@, k) == Some(
                #[trigger] self.bases@[k],
            )
    }

    closed spec fn resolving(&self) -> bool {
        let j: int = self.bases.len() as int;
        &&& j < FIELD_COUNT
        &&& self.chain.wf()
        &&& self.chain.base() == BASE_ADDRESS
        &&& self.chain.offsets() == field_chain(j)
        &&& self.chain.words().len() < CHAIN_LEVELS
        &&& self.chain.value() is Some
        &&& self.reads@.len() == 3 * j + self.chain.words().len()
        &&& self.chain.words() == self.reads@.subrange(3 * j, self.reads@.len() as int)
    }

    closed spec fn scanning(&self) -> bool {
        let r: Seq<u32> = self.reads@;
        &&& self.bases.len() == FIELD_COUNT
        &&& self.slot < ZOMBIE_SLOTS
        &&& self.field < FIELD_COUNT
        &&& self.words.len() == FIELD_COUNT
        &&& r.len() == PRELUDE_READS + 6 * self.slot + self.field
        &&& forall|k: int|
            0 <= k < FIELD_COUNT ==> #[trigger] self.words@[k] == (if k < self.field {
                slot_word(r, self.slot as int, k)
            } else if self.slot == 0 {
                0
            } else {
                slot_word(r, self.slot - 1, k)
            })
    }

    pub closed spec fn wf(&self) -> bool {
        &&& self.step == scan_step(self.reads@)
        &&& self.zombies@ == found_zombies(self.reads@)
        &&& self.step is Read ==> {
            &&& self.bases_resolved()
            &&& if self.bases.len() < FIELD_COUNT {
                self.resolving()
            } else {
                self.scanning()
            }
        }
    }

    /// A scan that has read nothing yet.
    pub fn new() -> (s: ZombieScan)
        ensures
            s.wf(),
            s.reads() == Seq::<u32>::empty(),
    {
        let s = ZombieScan {
            chain: PointerChain::new(BASE_ADDRESS, field_chain_offsets(0)),
            bases: Vec::new(),
            slot: 0,
            field: 0,
            words: vec![0, 0, 0, 0, 0, 0],
            zombies: Vec::new(),
            step: ScanStep::Read(request_for(BASE_ADDRESS)),
            reads: Ghost(Seq::empty()),
        };
        proof {
            reveal(scan_step);
            reveal(advance);
        }
        assert(s.chain.words().len() == 0);
        assert(s.reads@.subrange(0, 0) =~= Seq::<u32>::empty());
        s
    }

    /// What the scan does next.
    pub fn next_step(&self) -> (r: ScanStep)
        requires
            self.wf(),
        ensures
            r == scan_step(self.reads()),
    {
        self.step
    }

    /// The zombies found so far, in table order.
    pub fn zombies(&self) -> (r: &Vec<Zombie>)
        requires
            self.wf(),
        ensures
            r@ == found_zombies(self.reads()),
    {
        &self.zombies
    }

    /// The zombies found, taking the scan apart.
    pub fn into_zombies(self) -> (r: Vec<Zombie>)
        requires
            self.wf(),
        ensures
            r@ == found_zombies(self.reads()),
    {
        self.zombies
    }

    /// Takes the low word that the pending read left in its buffer.
    pub fn supply(&mut self, word: u32)
        requires
            old(self).wf(),
            scan_step(old(self).reads()) is Read,
        ensures
            final(self).wf(),
            final(self).reads() == old(self).reads().push(word),
    {
        if self.bases.len() < FIELD_COUNT {
            self.supply_chain_word(word);
        } else {
            self.supply_slot_word(word);
        }
    }

    fn supply_chain_word(&mut self, word: u32)
        requires
            old(self).wf(),
            scan_step(old(self).reads@) is Read,
            old(self).bases.len() < FIELD_COUNT,
        ensures
            final(self).wf(),
            final(self).reads@ == old(self).reads@.push(word),
    {
        let ghost r0: Seq<u32> = self.reads@;
        let ghost r: Seq<u32> = r0.push(word);
        proof {
            lemma_scan_step_push(r0, word);
        }
        let j: usize = self.bases.len();
        proof {
            lemma_advance_in_chain(r, j as int, self.chain.words().len() as int);
            assert(r.subrange(3 * j, r.len() as int) =~= r0.subrange(3 * j, r0.len() as int).push(
                word,
            ));
            assert forall|k: int| 0 <= k < j implies field_base(r, k) == field_base(r0, k) by {
                lemma_push_keeps_subrange(r0, word, 3 * k, 3 * k + 3);
            }
        }
        self.reads = Ghost(r);
        let outcome = self.chain.supply(word);
        match outcome {
            Err(()) => {
                self.step = ScanStep::Overflow;
            },
            Ok(()) => {
                match self.chain.next_read() {
                    Some(request) => {
                        self.step = ScanStep::Read(request);
                    },
                    None => {
                        match self.chain.result() {
                            Some(base) => {
                                self.bases.push(base);
                                if j + 1 < FIELD_COUNT {
                                    self.chain = PointerChain::new(
                                        BASE_ADDRESS,
                                        field_chain_offsets(j + 1),
                                    );
                                    self.step = ScanStep::Read(request_for(BASE_ADDRESS));
                                    assert(r.subrange(3 * (j + 1), r.len() as int) =~= Seq::<
                                        u32,
                                    >::empty());
                                } else {
                                    self.slot = 0;
                                    self.field = 0;
                                    self.words = vec![0, 0, 0, 0, 0, 0];
                                    self.step = slot_request(&self.bases, &self.words, 0, 0);
                                }
                            },
                            None => {
                                self.step = ScanStep::Overflow;
                            },
                        }
                    },
                }
            },
        }
    }

    fn supply_slot_word(&mut self, word: u32)
        requires
            old(self).wf(),
            scan_step(old(self).reads@) is Read,
            old(self).bases.len() == FIELD_COUNT,
        ensures
            final(self).wf(),
            final(self).reads@ == old(self).reads@.push(word),
    {
        let ghost r0: Seq<u32> = self.reads@;
        let ghost r: Seq<u32> = r0.push(word);
        proof {
            lemma_scan_step_push(r0, word);
            lemma_advance_in_table(r, self.slot as int, self.field as int);
        }
        let s: usize = self.slot;
        let f: usize = self.field;
        proof {
            assert forall|k: int| 0 <= k < FIELD_COUNT implies field_base(r, k) == field_base(
                r0,
                k,
            ) by {
                lemma_push_keeps_subrange(r0, word, 3 * k, 3 * k + 3);
            }
            lemma_live_zombies_push(r0, word, s as int);
        }
        self.reads = Ghost(r);
        self.words.set(f, word);
        if f + 1 < FIELD_COUNT {
            self.field = f + 1;
        } else {
            let live: bool = is_live_zombie(
                self.words[FIELD_BODY_HP],
                self.words[FIELD_ARMOR_HP],
                self.words[FIELD_SECOND_ARMOR_HP],
                self.words[FIELD_REMOVED],
            );
            if live {
                self.zombies.push(
                    Zombie { x_bits: self.words[FIELD_X], y_bits: self.words[FIELD_Y] },
                );
            }
            self.slot = s + 1;
            self.field = 0;
        }
        self.step = slot_request(&self.bases, &self.words, self.slot, self.field);
    }
}

} // verus!
