//! Peak levels and dropped cycles: who is metered, and what is read out of captured
//! samples and profiler reports.
//!
//! Nothing is metered while nobody watches. Levels are handled as the bits of 32-bit
//! floats: those of numbers that are not negative are ordered as the numbers are.

use crate::bytes::{le32, read_le32};
use crate::maps::{lemma_sorted_unique, lemma_take_next, sorted_names, NameMap};
use crate::text::{same, views};
use vstd::prelude::*;

verus! {

// ---- peaks ---------------------------------------------------------------------------------

/// The bits of a 32-bit float without its sign.
pub open spec fn without_sign(bits: u32) -> u32 {
    if bits >= 0x8000_0000 {
        (bits - 0x8000_0000) as u32
    } else {
        bits
    }
}

/// The bits are those of a number.
pub open spec fn is_number(bits: u32) -> bool {
    without_sign(bits) <= 0x7f80_0000
}

/// Sample `i` of a row of little-endian 32-bit floats.
pub open spec fn float_at(b: Seq<u8>, i: int) -> u32 {
    le32(b[4 * i], b[4 * i + 1], b[4 * i + 2], b[4 * i + 3])
}

/// `peak` is the greatest distance from zero among the first `n` samples, and zero
/// where there is none. What is no number does not count.
pub open spec fn is_peak(peak: u32, b: Seq<u8>, n: int) -> bool {
    &&& forall|i: int|
        0 <= i < n && is_number(#[trigger] float_at(b, i)) ==> without_sign(float_at(b, i)) <= peak
    &&& peak == 0 || exists|i: int|
        0 <= i < n && is_number(#[trigger] float_at(b, i)) && without_sign(float_at(b, i)) == peak
}

/// The end of what a buffer holds.
pub open spec fn chunk_end(offset: u32, size: u32, len: int) -> int {
    if offset + size <= len {
        offset + size
    } else {
        len
    }
}

/// The part of a buffer that the capture of a sink hands on, `None` where there is
/// nothing in it.
pub fn captured(offset: u32, size: u32, len: usize) -> (r: Option<(usize, usize)>)
    ensures
        r == if chunk_end(offset, size, len as int) > offset {
            Some((offset as usize, chunk_end(offset, size, len as int) as usize))
        } else {
            None
        },
{
    let end: u64 = (offset as u64) + (size as u64);
    let end: usize = if end <= len as u64 {
        end as usize
    } else {
        len
    };
    if end as u64 > offset as u64 {
        Some((offset as usize, end))
    } else {
        None
    }
}

/// The peak of a row of little-endian 32-bit floats.
pub fn peak_of(bytes: &[u8]) -> (r: u32)
    ensures
        is_peak(r, bytes@, bytes@.len() as int / 4),
{
    let len: usize = bytes.len();
    let n: usize = len / 4;
    let mut peak: u32 = 0;
    let mut i: usize = 0;
    while i < n
        invariant
            len == bytes@.len(),
            n == len / 4,
            i <= n,
            is_peak(peak, bytes@, i as int),
        decreases n - i,
    {
        let bits: u32 = read_le32(
            bytes[4 * i],
            bytes[4 * i + 1],
            bytes[4 * i + 2],
            bytes[4 * i + 3],
        );
        let size: u32 = if bits >= 0x8000_0000 {
            bits - 0x8000_0000
        } else {
            bits
        };
        let ghost before = peak;
        assert(bits == float_at(bytes@, i as int));
        if size <= 0x7f80_0000 && size > peak {
            peak = size;
        }
        proof {
            if peak == before && peak != 0 {
                let k = choose|k: int|
                    0 <= k < i && is_number(#[trigger] float_at(bytes@, k)) && without_sign(
                        float_at(bytes@, k),
                    ) == before;
                assert(0 <= k < i + 1);
            }
        }
        i += 1;
    }
    peak
}

/// What a tap measures of a buffer: the peak of the part that the chunk names, which is
/// zero for an empty chunk. A chunk begins inside its buffer.
pub fn tap_peak(offset: u32, size: u32, bytes: &[u8]) -> (r: u32)
    requires
        offset <= bytes@.len(),
    ensures
        ({
            let end = chunk_end(offset, size, bytes@.len() as int);
            is_peak(r, bytes@.subrange(offset as int, end), (end - offset) / 4)
        }),
        size == 0 || offset == bytes@.len() ==> r == 0,
{
    let len: usize = bytes.len();
    match captured(offset, size, len) {
        Some((from, to)) => peak_of(vstd::slice::slice_subrange(bytes, from, to)),
        None => 0,
    }
}

// ---- taps ------------------------------------------------------------------------------------

/// A running tap.
pub struct Tap {
    /// The last peak it measured.
    pub peak: u32,
    /// The node it listens to.
    pub node_id: u32,
}

/// The taps, and how many watch.
pub struct MeterHub {
    pub watchers: usize,
    pub taps: NameMap<Tap>,
}

/// A source is to be metered at this node.
pub open spec fn is_wanted(wanted: Seq<(String, u32)>, name: Seq<char>, id: u32) -> bool {
    exists|i: int| 0 <= i < wanted.len() && (#[trigger] wanted[i]).0@ == name && wanted[i].1 == id
}

fn wants(wanted: &Vec<(String, u32)>, name: &str, id: u32) -> (r: bool)
    ensures
        r == is_wanted(wanted@, name@, id),
{
    let mut i: usize = 0;
    while i < wanted.len()
        invariant
            i <= wanted@.len(),
            forall|j: int|
                0 <= j < i ==> !((#[trigger] wanted@[j]).0@ == name@ && wanted@[j].1 == id),
        decreases wanted.len() - i,
    {
        if same(&wanted[i].0, name) && wanted[i].1 == id {
            return true;
        }
        i += 1;
    }
    false
}

/// The taps that are kept: none while nobody watches, else those that are wanted at
/// the node they listen to.
pub open spec fn kept_taps(h: MeterHub, wanted: Seq<(String, u32)>) -> Map<Seq<char>, Tap> {
    Map::new(
        |n: Seq<char>|
            h.watchers > 0 && h.taps@.contains_key(n) && is_wanted(wanted, n, h.taps@[n].node_id),
        |n: Seq<char>| h.taps@[n],
    )
}

impl MeterHub {
    pub fn new() -> (r: Self)
        ensures
            r.watchers == 0,
            r.taps@ == Map::<Seq<char>, Tap>::empty(),
    {
        MeterHub { watchers: 0, taps: NameMap::new() }
    }

    /// Somebody began to watch.
    pub fn watch(&mut self)
        requires
            old(self).watchers < usize::MAX,
        ensures
            final(self).watchers == old(self).watchers + 1,
            final(self).taps == old(self).taps,
    {
        self.watchers = self.watchers + 1;
    }

    /// Somebody stopped watching. Where nobody is left, every tap ends.
    pub fn unwatch(&mut self)
        ensures
            final(self).watchers == if old(self).watchers > 0 {
                old(self).watchers - 1
            } else {
                0
            },
            final(self).taps@ == if old(self).watchers <= 1 {
                Map::<Seq<char>, Tap>::empty()
            } else {
                old(self).taps@
            },
    {
        if self.watchers > 0 {
            self.watchers = self.watchers - 1;
        }
        if self.watchers == 0 {
            self.taps = NameMap::new();
        }
    }

    /// The last peak of a source, zero where it is not metered.
    pub fn peak(&self, node_name: &str) -> (r: u32)
        ensures
            r == if self.taps@.contains_key(node_name@) {
                self.taps@[node_name@].peak
            } else {
                0
            },
    {
        match self.taps.get(node_name) {
            Some(t) => t.peak,
            None => 0,
        }
    }

    /// Notes what a tap measured.
    pub fn measured(&mut self, node_name: &str, peak: u32)
        ensures
            final(self).watchers == old(self).watchers,
            final(self).taps@ == if old(self).taps@.contains_key(node_name@) {
                old(self).taps@.insert(
                    node_name@,
                    Tap { peak, node_id: old(self).taps@[node_name@].node_id },
                )
            } else {
                old(self).taps@
            },
    {
        let ghost before = self.taps@;
        match self.taps.remove(node_name) {
            Some(t) => {
                self.taps.insert(String::from_str(node_name), Tap { peak, node_id: t.node_id });
                assert(self.taps@ =~= before.insert(
                    node_name@,
                    Tap { peak, node_id: before[node_name@].node_id },
                ));
            },
            None => {
                assert(self.taps@ =~= before);
            },
        }
    }

    /// Ends the taps that are not wanted any more: of sources that are gone, or that
    /// came back as another node. While nobody watches, all of them.
    pub fn reconcile_sources(&mut self, wanted: &Vec<(String, u32)>)
        ensures
            final(self).watchers == old(self).watchers,
            final(self).taps@ == kept_taps(*old(self), wanted@),
    {
        if self.watchers == 0 {
            self.taps = NameMap::new();
            assert(self.taps@ =~= kept_taps(*old(self), wanted@));
            return ;
        }
        let ghost h = *self;
        let keys = self.taps.keys();
        let ghost names = views(keys@);
        let mut i: usize = 0;
        while i < keys.len()
            invariant
                i <= keys@.len(),
                names == views(keys@),
                sorted_names(names),
                h == *old(self),
                h.watchers > 0,
                self.watchers == h.watchers,
                forall|k: Seq<char>| #[trigger] h.taps@.contains_key(k) <==> names.contains(k),
                forall|k: Seq<char>| #[trigger]
                    self.taps@.contains_key(k) <==> h.taps@.contains_key(k) && (!names.take(
                        i as int,
                    ).contains(k) || is_wanted(wanted@, k, h.taps@[k].node_id)),
                forall|k: Seq<char>| #[trigger]
                    self.taps@.contains_key(k) ==> self.taps@[k] == h.taps@[k],
            decreases keys.len() - i,
        {
            let ghost k = names[i as int];
            proof {
                lemma_take_next(names, i as int);
                assert(names.contains(k));
                if names.take(i as int).contains(k) {
                    let j = choose|j: int| 0 <= j < i && names.take(i as int)[j] == k;
                    lemma_sorted_unique(names, j, i as int);
                }
            }
            assert(self.taps@.contains_key(k));
            let id: u32 = match self.taps.get(&keys[i]) {
                Some(t) => t.node_id,
                None => 0,
            };
            if !wants(wanted, &keys[i], id) {
                self.taps.remove(&keys[i]);
            }
            i += 1;
        }
        proof {
            assert(names.take(i as int) =~= names);
            assert(self.taps@ =~= kept_taps(h, wanted@));
        }
    }

    /// Whether a tap is to be started for a source.
    pub fn needs_tap(&self, node_name: &str) -> (r: bool)
        ensures
            r == (self.watchers > 0 && !self.taps@.contains_key(node_name@)),
    {
        self.watchers > 0 && !self.taps.contains_key(node_name)
    }

    /// Notes that a tap was started.
    pub fn tap_started(&mut self, node_name: &str, node_id: u32)
        ensures
            final(self).watchers == old(self).watchers,
            final(self).taps@ == old(self).taps@.insert(node_name@, Tap { peak: 0, node_id }),
    {
        self.taps.insert(String::from_str(node_name), Tap { peak: 0, node_id });
    }
}

/// Nothing is metered while nobody watches: neither the last watcher's leaving nor a
/// look at the sources then leaves a tap.
pub proof fn law_unwatched_means_untapped(h: MeterHub, wanted: Seq<(String, u32)>)
    requires
        h.watchers == 0,
    ensures
        kept_taps(h, wanted) == Map::<Seq<char>, Tap>::empty(),
{
    assert(kept_taps(h, wanted) =~= Map::<Seq<char>, Tap>::empty());
}

// ---- who watches ------------------------------------------------------------------------------

/// How many watch the profiler's figures.
pub struct Watchers {
    pub count: usize,
}

impl Watchers {
    /// Somebody began to watch. Says whether profiling is to be switched on.
    pub fn enter(&mut self) -> (first: bool)
        requires
            old(self).count < usize::MAX,
        ensures
            final(self).count == old(self).count + 1,
            first == (old(self).count == 0),
    {
        self.count = self.count + 1;
        self.count == 1
    }

    /// Somebody stopped watching. Says whether profiling is to be switched off.
    pub fn leave(&mut self) -> (last: bool)
        requires
            old(self).count > 0,
        ensures
            final(self).count == old(self).count - 1,
            last == (old(self).count == 1),
    {
        self.count = self.count - 1;
        self.count == 0
    }
}

// ---- dropped cycles -----------------------------------------------------------------------------

/// One field of a profiler report.
pub enum Field {
    Text(String),
    Int(i32),
    Other,
}

/// What a part of a profiler report is about.
#[derive(Clone, Copy, Debug, PartialEq, Eq, Structural)]
pub enum BlockKind {
    Driver,
    Follower,
    Other,
}

/// One part of a profiler report; `None` where it is no record.
pub struct Block {
    pub kind: BlockKind,
    pub fields: Option<Vec<Field>>,
}

/// The field that names the node.
pub const NAME_FIELD: usize = 1;

/// The field that counts its dropped cycles.
pub const XRUN_FIELD: usize = 8;

/// The node and the count that a part of a report gives. One that is laid out in
/// another way gives nothing.
pub open spec fn block_entry(b: Block) -> Option<(Seq<char>, u32)> {
    if b.kind != BlockKind::Other && b.fields is Some {
        let f = b.fields->0@;
        if f.len() > XRUN_FIELD && f[NAME_FIELD as int] is Text && f[XRUN_FIELD as int] is Int {
            let n = f[XRUN_FIELD as int]->Int_0;
            Some(
                (
                    f[NAME_FIELD as int]->Text_0@,
                    if n > 0 {
                        n as u32
                    } else {
                        0
                    },
                ),
            )
        } else {
            None
        }
    } else {
        None
    }
}

/// The counts in the first `n` parts of a report. A later part wins.
pub open spec fn xruns_in(blocks: Seq<Block>, n: int) -> Map<Seq<char>, u32>
    decreases
            if n > 0 {
                n
            } else {
                0
            },
{
    if n <= 0 {
        Map::empty()
    } else {
        let rest = xruns_in(blocks, n - 1);
        match block_entry(blocks[n - 1]) {
            Some(e) => rest.insert(e.0, e.1),
            None => rest,
        }
    }
}

/// No counts.
pub fn new_xruns() -> (r: NameMap<u32>)
    ensures
        r@ == Map::<Seq<char>, u32>::empty(),
{
    NameMap::new()
}

fn entry_of(b: &Block) -> (r: Option<(String, u32)>)
    ensures
        match r {
            Some(e) => block_entry(*b) == Some((e.0@, e.1)),
            None => block_entry(*b) is None,
        },
{
    match b.kind {
        BlockKind::Other => {
            return None;
        },
        _ => {},
    }
    match &b.fields {
        Some(f) => {
            if f.len() <= XRUN_FIELD {
                return None;
            }
            match (&f[NAME_FIELD], &f[XRUN_FIELD]) {
                (Field::Text(name), Field::Int(n)) => {
                    let count: u32 = if *n > 0 {
                        *n as u32
                    } else {
                        0
                    };
                    Some((name.clone(), count))
                },
                _ => None,
            }
        },
        None => None,
    }
}

/// The dropped cycles of every node in a report. What the report does not speak of is
/// gone.
pub fn on_profile(blocks: &Vec<Block>) -> (r: NameMap<u32>)
    ensures
        r@ == xruns_in(blocks@, blocks@.len() as int),
{
    let mut out = new_xruns();
    let mut i: usize = 0;
    while i < blocks.len()
        invariant
            i <= blocks@.len(),
            out@ == xruns_in(blocks@, i as int),
        decreases blocks.len() - i,
    {
        match entry_of(&blocks[i]) {
            Some(e) => {
                out.insert(e.0, e.1);
            },
            None => {},
        }
        i += 1;
    }
    out
}

// ---- laws -----------------------------------------------------------------------------

/// No sample is further from zero than the peak, on either side, and where the peak is
/// not zero some sample is as far.
pub proof fn law_a_peak_bounds_both_sides(peak: u32, b: Seq<u8>, n: int, i: int)
    requires
        is_peak(peak, b, n),
        0 <= i < n,
    ensures
        float_at(b, i) <= 0x7f80_0000 ==> float_at(b, i) <= peak,
        0x8000_0000 <= float_at(b, i) <= 0xff80_0000 ==> float_at(b, i) - 0x8000_0000 <= peak,
        peak > 0 ==> exists|k: int|
            0 <= k < n && (#[trigger] float_at(b, k) == peak || float_at(b, k) == peak
                + 0x8000_0000),
        peak <= 0x7f80_0000,
{
    assert(is_number(float_at(b, i)) == (without_sign(float_at(b, i)) <= 0x7f80_0000));
    if peak > 0 {
        let k = choose|k: int|
            0 <= k < n && is_number(#[trigger] float_at(b, k)) && without_sign(float_at(b, k))
                == peak;
        assert(float_at(b, k) == peak || float_at(b, k) == peak + 0x8000_0000);
    }
}

/// What is handed on of a buffer ends with the chunk or with the buffer, whichever
/// comes first.
pub proof fn law_a_chunk_stays_in_its_buffer(offset: u32, size: u32, len: int)
    requires
        len >= 0,
    ensures
        chunk_end(offset, size, len) <= len,
        chunk_end(offset, size, len) <= offset + size,
        chunk_end(offset, size, len) == len || chunk_end(offset, size, len) == offset + size,
{
}

/// The part gives this node this many dropped cycles: it is about a driver or a
/// follower, and has the name and the number in their places.
pub open spec fn part_says(b: Block, name: Seq<char>, count: u32) -> bool {
    &&& b.kind == BlockKind::Driver || b.kind == BlockKind::Follower
    &&& b.fields is Some
    &&& b.fields->0@.len() > 8
    &&& b.fields->0@[1] is Text
    &&& b.fields->0@[1]->Text_0@ == name
    &&& b.fields->0@[8] is Int
    &&& count == if b.fields->0@[8]->Int_0 > 0 {
        b.fields->0@[8]->Int_0 as u32
    } else {
        0
    }
}

/// Every node that a report speaks of has its count, that of the last part about it,
/// and no other node has one.
pub proof fn law_every_count_is_taken(blocks: Seq<Block>, n: int, name: Seq<char>)
    requires
        0 <= n <= blocks.len(),
    ensures
        forall|i: int, count: u32|
            0 <= i < n && #[trigger] part_says(blocks[i], name, count) && (forall|j: int, c: int|
                i < j < n ==> !#[trigger] part_says(blocks[j], name, c as u32)) ==> xruns_in(
                blocks,
                n,
            ).contains_key(name) && xruns_in(blocks, n)[name] == count,
        xruns_in(blocks, n).contains_key(name) ==> exists|i: int|
            0 <= i < n && #[trigger] part_says(blocks[i], name, xruns_in(blocks, n)[name]),
    decreases n,
{
    if n > 0 {
        law_every_count_is_taken(blocks, n - 1, name);
        let b = blocks[n - 1];
        let all = xruns_in(blocks, n);
        let rest = xruns_in(blocks, n - 1);
        assert forall|i: int, count: u32|
            0 <= i < n && #[trigger] part_says(blocks[i], name, count) && (forall|j: int, c: int|
                i < j < n ==> !#[trigger] part_says(blocks[j], name, c as u32)) implies
            all.contains_key(name) && all[name] == count by {
            if i < n - 1 {
                if block_entry(b) is Some && (block_entry(b)->0).0 == name {
                    let c = (block_entry(b)->0).1;
                    assert(part_says(b, name, (c as int) as u32));
                    assert(!part_says(blocks[n - 1], name, (c as int) as u32));
                }
                assert(all.contains_key(name) == rest.contains_key(name));
            }
        }
        if all.contains_key(name) {
            if block_entry(b) is Some && (block_entry(b)->0).0 == name {
                assert(part_says(blocks[n - 1], name, all[name]));
            } else {
                let i = choose|i: int|
                    0 <= i < n - 1 && #[trigger] part_says(blocks[i], name, rest[name]);
                assert(part_says(blocks[i], name, all[name]));
            }
        }
    }
}

/// While somebody watches, a tap runs on exactly where its source is still wanted at
/// the node it listens to; while nobody does, none runs on.
pub proof fn law_wanted_taps_run_on(h: MeterHub, wanted: Seq<(String, u32)>, name: Seq<char>)
    ensures
        kept_taps(h, wanted).contains_key(name) <==> h.watchers > 0 && h.taps@.contains_key(name)
            && exists|i: int|
            0 <= i < wanted.len() && (#[trigger] wanted[i]).0@ == name && wanted[i].1
                == h.taps@[name].node_id,
        kept_taps(h, wanted).contains_key(name) ==> kept_taps(h, wanted)[name] == h.taps@[name],
{
}

} // verus!
