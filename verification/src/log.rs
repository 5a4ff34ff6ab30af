//! Log segments, their replay semantics, and the positioned appender.
//!
//! A segment is one numbered append-only file: a plain concatenation
//! of record encodings.  Replaying the records of every segment in
//! order, oldest first, yields the logical key/value mapping; that
//! replay is the specification recovery is proved against.

use vstd::prelude::*;

use crate::command::cmd_utf8_ok;
use crate::command::lemma_cmd_bounds;
use crate::command::lemma_cmd_embed;
use crate::command::lemma_cmd_prefix;
use crate::command::parse_cmd;
use crate::command::CmdRaw;

verus! {

/// One numbered append-only segment of the log.
pub struct Segment {
    /// The number from the segment's file name.
    pub number: u64,
    /// The bytes of the segment.
    pub data: Vec<u8>,
}

/// A segment at the specification level.
pub struct SegV {
    pub number: u64,
    pub data: Seq<u8>,
}

impl View for Segment {
    type V = SegV;

    open spec fn view(&self) -> SegV {
        SegV { number: self.number, data: self.data@ }
    }
}

/// The records encoded in `b` from position `i` on, in order; `None`
/// when the remaining bytes are not a concatenation of record
/// encodings.
pub open spec fn parse_log_from(b: Seq<u8>, i: int) -> Option<Seq<CmdRaw>>
    decreases b.len() - i,
{
    if i == b.len() {
        Some(Seq::empty())
    } else if i < 0 || i > b.len() {
        None
    } else {
        match parse_cmd(b, i) {
            Some((c, e)) => if i < e <= b.len() {
                match parse_log_from(b, e) {
                    Some(rest) => Some(seq![c] + rest),
                    None => None,
                }
            } else {
                None
            },
            None => None,
        }
    }
}

/// Whether a segment's bytes replay cleanly: they parse as records
/// whose keys and values are all strings.
pub open spec fn log_wf(b: Seq<u8>) -> bool {
    &&& parse_log_from(b, 0) is Some
    &&& forall|t: int|
        0 <= t < parse_log_from(b, 0)->Some_0.len() ==> cmd_utf8_ok(
            #[trigger] parse_log_from(b, 0)->Some_0[t],
        )
}

/// The effect of one record on the key/value mapping.
pub open spec fn apply_cmd(m: Map<Seq<u8>, Seq<u8>>, c: CmdRaw) -> Map<Seq<u8>, Seq<u8>> {
    match c {
        CmdRaw::SetR(k, v) => m.insert(k, v),
        CmdRaw::RmR(k) => m.remove(k),
    }
}

/// The effect of a run of records, oldest first.
pub open spec fn apply_cmds(m: Map<Seq<u8>, Seq<u8>>, cs: Seq<CmdRaw>) -> Map<Seq<u8>, Seq<u8>>
    decreases cs.len(),
{
    if cs.len() == 0 {
        m
    } else {
        apply_cmds(apply_cmd(m, cs[0]), cs.drop_first())
    }
}

pub proof fn lemma_apply_cmds_push(m: Map<Seq<u8>, Seq<u8>>, cs: Seq<CmdRaw>, c: CmdRaw)
    ensures
        apply_cmds(m, cs.push(c)) == apply_cmd(apply_cmds(m, cs), c),
    decreases cs.len(),
{
    if cs.len() == 0 {
        assert(cs.push(c)[0] == c);
        assert(cs.push(c).drop_first() =~= Seq::<CmdRaw>::empty());
        assert(apply_cmds(apply_cmd(m, c), Seq::<CmdRaw>::empty()) == apply_cmd(m, c));
        assert(apply_cmds(m, cs) == m);
    } else {
        assert(cs.push(c)[0] == cs[0]);
        assert(cs.push(c).drop_first() =~= cs.drop_first().push(c));
        lemma_apply_cmds_push(apply_cmd(m, cs[0]), cs.drop_first(), c);
        assert(apply_cmds(m, cs.push(c)) == apply_cmds(
            apply_cmd(m, cs[0]),
            cs.drop_first().push(c),
        ));
        assert(apply_cmds(m, cs) == apply_cmds(apply_cmd(m, cs[0]), cs.drop_first()));
    }
}

/// Appending the bytes of one record to a clean log appends that
/// record to what the log parses to.  The appended bytes may use any
/// escapes the record parser accepts.
pub proof fn lemma_parse_log_append(b: Seq<u8>, i: int, cs: Seq<CmdRaw>, x: Seq<u8>, c: CmdRaw)
    requires
        0 <= i <= b.len(),
        parse_log_from(b, i) == Some(cs),
        parse_cmd(x, 0) == Some((c, x.len() as int)),
    ensures
        parse_log_from(b + x, i) == Some(cs.push(c)),
    decreases b.len() - i,
{
    let b2 = b + x;
    lemma_cmd_bounds(x, 0);
    if i == b.len() {
        assert(b2.subrange(i, i + x.len() as int) =~= x);
        lemma_cmd_embed(x, b2, i);
        assert(parse_log_from(b2, i + x.len() as int) == Some(Seq::<CmdRaw>::empty()));
        assert(cs =~= Seq::<CmdRaw>::empty());
        assert(seq![c] + Seq::<CmdRaw>::empty() =~= cs.push(c));
    } else {
        let (c0, e0) = parse_cmd(b, i)->Some_0;
        lemma_cmd_bounds(b, i);
        lemma_cmd_prefix(b, x, i);
        let rest = parse_log_from(b, e0)->Some_0;
        lemma_parse_log_append(b, e0, rest, x, c);
        assert(cs == seq![c0] + rest);
        assert(parse_log_from(b2, i) == Some(seq![c0] + rest.push(c)));
        assert(seq![c0] + rest.push(c) =~= (seq![c0] + rest).push(c));
    }
}

/// The key/value mapping that replaying a run of segments yields, or
/// `None` when some segment does not parse.
pub open spec fn replay(segs: Seq<SegV>) -> Option<Map<Seq<u8>, Seq<u8>>>
    decreases segs.len(),
{
    if segs.len() == 0 {
        Some(Map::empty())
    } else {
        match replay(segs.drop_last()) {
            Some(m) => match parse_log_from(segs.last().data, 0) {
                Some(cs) => Some(apply_cmds(m, cs)),
                None => None,
            },
            None => None,
        }
    }
}

/// The number of bytes held across a run of segments.
pub open spec fn seg_total(segs: Seq<SegV>) -> int
    decreases segs.len(),
{
    if segs.len() == 0 {
        0
    } else {
        seg_total(segs.drop_last()) + segs.last().data.len()
    }
}

/// Whether some segment in the run carries this number.
pub open spec fn has_number(s: Seq<SegV>, n: u64) -> bool {
    exists|i: int| 0 <= i < s.len() && (#[trigger] s[i]).number == n
}

/// Whether this very segment stands in the run.
pub open spec fn has_seg(s: Seq<SegV>, g: SegV) -> bool {
    exists|i: int| 0 <= i < s.len() && #[trigger] s[i] == g
}

/// Segment numbers never step down along the run.
pub open spec fn non_descending(s: Seq<SegV>) -> bool {
    forall|i: int, j: int|
        0 <= i < j < s.len() ==> (#[trigger] s[i]).number <= (#[trigger] s[j]).number
}

/// No two segments of the run carry the same number.
pub open spec fn distinct_numbers(s: Seq<SegV>) -> bool {
    forall|i: int, j: int|
        0 <= i < j < s.len() ==> (#[trigger] s[i]).number != (#[trigger] s[j]).number
}

/// Where a segment lands among already-ordered segments: just before
/// the run of segments with greater numbers.
pub open spec fn insert_seg(s: Seq<SegV>, x: SegV) -> Seq<SegV>
    decreases s.len(),
{
    if s.len() == 0 {
        seq![x]
    } else if s.last().number <= x.number {
        s.push(x)
    } else {
        insert_seg(s.drop_last(), x).push(s.last())
    }
}

/// The run reordered by ascending segment number: recovery replays
/// segments oldest first whatever order the directory listed them in.
pub open spec fn sort_segs(s: Seq<SegV>) -> Seq<SegV>
    decreases s.len(),
{
    if s.len() == 0 {
        Seq::empty()
    } else {
        insert_seg(sort_segs(s.drop_last()), s.last())
    }
}

/// Inserting keeps the order, adds exactly the one segment, and keeps
/// numbers distinct when the new number is fresh.
pub proof fn lemma_insert_seg(s: Seq<SegV>, x: SegV)
    requires
        non_descending(s),
    ensures
        insert_seg(s, x).len() == s.len() + 1,
        non_descending(insert_seg(s, x)),
        forall|g: SegV| has_seg(insert_seg(s, x), g) == (has_seg(s, g) || g == x),
        forall|n: u64| has_number(insert_seg(s, x), n) == (has_number(s, n) || n == x.number),
        !has_number(s, x.number) && distinct_numbers(s) ==> distinct_numbers(insert_seg(s, x)),
    decreases s.len(),
{
    let r = insert_seg(s, x);
    if s.len() == 0 {
        assert(r == seq![x]);
        assert forall|g: SegV| has_seg(r, g) == (has_seg(s, g) || g == x) by {
            assert(r[0] == x);
        }
        assert forall|n: u64| has_number(r, n) == (has_number(s, n) || n == x.number) by {
            assert(r[0] == x);
        }
    } else if s.last().number <= x.number {
        assert(r == s.push(x));
        assert forall|g: SegV| has_seg(r, g) == (has_seg(s, g) || g == x) by {
            assert(r[s.len() as int] == x);
            if has_seg(s, g) {
                let i = choose|i: int| 0 <= i < s.len() && #[trigger] s[i] == g;
                assert(r[i] == g);
            }
            if has_seg(r, g) && g != x {
                let i = choose|i: int| 0 <= i < r.len() && #[trigger] r[i] == g;
                assert(s[i] == g);
            }
        }
        assert forall|n: u64| has_number(r, n) == (has_number(s, n) || n == x.number) by {
            assert(r[s.len() as int] == x);
            if has_number(s, n) {
                let i = choose|i: int| 0 <= i < s.len() && (#[trigger] s[i]).number == n;
                assert(r[i].number == n);
            }
            if has_number(r, n) && n != x.number {
                let i = choose|i: int| 0 <= i < r.len() && (#[trigger] r[i]).number == n;
                assert(s[i].number == n);
            }
        }
        assert forall|i: int, j: int|
            0 <= i < j < r.len() implies (#[trigger] r[i]).number <= (#[trigger] r[j]).number by {
            if j < s.len() {
                assert(s[i].number <= s[j].number);
            } else {
                assert(r[j] == x);
                if i < s.len() - 1 {
                    assert(s[i].number <= s.last().number);
                }
            }
        }
    } else {
        let inner = insert_seg(s.drop_last(), x);
        assert(non_descending(s.drop_last())) by {
            assert(forall|i: int, j: int|
                0 <= i < j < s.drop_last().len() ==> (#[trigger] s.drop_last()[i]).number <= (
                #[trigger] s.drop_last()[j]).number);
        }
        lemma_insert_seg(s.drop_last(), x);
        assert(r == inner.push(s.last()));
        assert forall|g: SegV| has_seg(r, g) == (has_seg(s, g) || g == x) by {
            assert(r[inner.len() as int] == s.last());
            if has_seg(inner, g) {
                let i = choose|i: int| 0 <= i < inner.len() && #[trigger] inner[i] == g;
                assert(r[i] == g);
            }
            if has_seg(s, g) {
                let i = choose|i: int| 0 <= i < s.len() && #[trigger] s[i] == g;
                if i < s.len() - 1 {
                    assert(s.drop_last()[i] == g);
                }
            }
            if has_seg(r, g) {
                let i = choose|i: int| 0 <= i < r.len() && #[trigger] r[i] == g;
                if i < inner.len() {
                    assert(inner[i] == g);
                } else {
                    assert(g == s.last());
                    assert(s[s.len() - 1] == g);
                }
            }
            if has_seg(s.drop_last(), g) {
                let i = choose|i: int| 0 <= i < s.drop_last().len() && #[trigger] s.drop_last()[i]
                    == g;
                assert(s[i] == g);
            }
        }
        assert forall|n: u64| has_number(r, n) == (has_number(s, n) || n == x.number) by {
            assert(r[inner.len() as int] == s.last());
            if has_number(inner, n) {
                let i = choose|i: int| 0 <= i < inner.len() && (#[trigger] inner[i]).number == n;
                assert(r[i].number == n);
            }
            if has_number(s, n) {
                let i = choose|i: int| 0 <= i < s.len() && (#[trigger] s[i]).number == n;
                if i < s.len() - 1 {
                    assert(s.drop_last()[i].number == n);
                }
            }
            if has_number(r, n) {
                let i = choose|i: int| 0 <= i < r.len() && (#[trigger] r[i]).number == n;
                if i < inner.len() {
                    assert(inner[i].number == n);
                } else {
                    assert(s[s.len() - 1].number == n);
                }
            }
            if has_number(s.drop_last(), n) {
                let i = choose|i: int| 0 <= i < s.drop_last().len() && (#[trigger] s.drop_last()[i]).number
                    == n;
                assert(s[i].number == n);
            }
        }
        assert forall|i: int, j: int|
            0 <= i < j < r.len() implies (#[trigger] r[i]).number <= (#[trigger] r[j]).number by {
            if j < inner.len() {
            } else {
                assert(r[j] == s.last());
                assert(r[i] == inner[i]);
                let n = inner[i].number;
                assert(has_number(inner, n)) by {
                    assert(inner[i].number == n);
                }
                if has_number(s.drop_last(), n) {
                    let q = choose|q: int|
                        0 <= q < s.drop_last().len() && (#[trigger] s.drop_last()[q]).number == n;
                    assert(s[q].number == n);
                    assert(s[q].number <= s.last().number);
                } else {
                    assert(n == x.number);
                }
            }
        }
        if !has_number(s, x.number) && distinct_numbers(s) {
            assert(!has_number(s.drop_last(), x.number)) by {
                if has_number(s.drop_last(), x.number) {
                    let i = choose|i: int|
                        0 <= i < s.drop_last().len() && (#[trigger] s.drop_last()[i]).number
                            == x.number;
                    assert(s[i].number == x.number);
                }
            }
            assert(distinct_numbers(s.drop_last())) by {
                assert(forall|i: int, j: int|
                    0 <= i < j < s.drop_last().len() ==> (#[trigger] s.drop_last()[i]).number != (
                    #[trigger] s.drop_last()[j]).number);
            }
            assert forall|i: int, j: int|
                0 <= i < j < r.len() implies (#[trigger] r[i]).number != (
            #[trigger] r[j]).number by {
                if j == inner.len() {
                    assert(r[j] == s.last());
                    let n = inner[i].number;
                    assert(has_number(inner, n)) by {
                        assert(inner[i].number == n);
                    }
                    if has_number(s.drop_last(), n) && n == s.last().number {
                        let q = choose|q: int|
                            0 <= q < s.drop_last().len() && (#[trigger] s.drop_last()[q]).number
                                == n;
                        assert(s[q].number == n && s[s.len() - 1].number == n);
                    }
                }
            }
        }
    }
}

/// Sorting keeps exactly the same segments, orders their numbers and
/// keeps them distinct.
pub proof fn lemma_sort_segs(s: Seq<SegV>)
    ensures
        sort_segs(s).len() == s.len(),
        non_descending(sort_segs(s)),
        forall|g: SegV| has_seg(sort_segs(s), g) == has_seg(s, g),
        forall|n: u64| has_number(sort_segs(s), n) == has_number(s, n),
        distinct_numbers(s) ==> distinct_numbers(sort_segs(s)),
    decreases s.len(),
{
    if s.len() > 0 {
        let t = s.drop_last();
        lemma_sort_segs(t);
        lemma_insert_seg(sort_segs(t), s.last());
        assert forall|g: SegV| has_seg(s, g) == (has_seg(t, g) || g == s.last()) by {
            if has_seg(t, g) {
                let i = choose|i: int| 0 <= i < t.len() && #[trigger] t[i] == g;
                assert(s[i] == g);
            }
            if has_seg(s, g) && g != s.last() {
                let i = choose|i: int| 0 <= i < s.len() && #[trigger] s[i] == g;
                if i < s.len() - 1 {
                    assert(t[i] == g);
                } else {
                    assert(s[s.len() - 1] == s.last());
                }
            }
            assert(s[s.len() - 1] == s.last());
        }
        assert forall|n: u64| has_number(s, n) == (has_number(t, n) || n == s.last().number) by {
            if has_number(t, n) {
                let i = choose|i: int| 0 <= i < t.len() && (#[trigger] t[i]).number == n;
                assert(s[i].number == n);
            }
            if has_number(s, n) && n != s.last().number {
                let i = choose|i: int| 0 <= i < s.len() && (#[trigger] s[i]).number == n;
                assert(t[i].number == n);
            }
            assert(s[s.len() - 1] == s.last());
        }
        if distinct_numbers(s) {
            assert(distinct_numbers(t)) by {
                assert(forall|i: int, j: int|
                    0 <= i < j < t.len() ==> (#[trigger] t[i]).number != (
                    #[trigger] t[j]).number);
            }
            assert(!has_number(t, s.last().number)) by {
                if has_number(t, s.last().number) {
                    let i = choose|i: int|
                        0 <= i < t.len() && (#[trigger] t[i]).number == s.last().number;
                    assert(s[i].number == s[s.len() - 1].number);
                }
            }
            assert(!has_number(sort_segs(t), s.last().number));
        }
    }
}

/// Segments already in strictly ascending order sort to themselves.
pub proof fn lemma_sort_id(s: Seq<SegV>)
    requires
        forall|i: int, j: int|
            0 <= i < j < s.len() ==> (#[trigger] s[i]).number < (#[trigger] s[j]).number,
    ensures
        sort_segs(s) == s,
    decreases s.len(),
{
    if s.len() > 0 {
        let t = s.drop_last();
        lemma_sort_id(t);
        if t.len() == 0 {
            assert(sort_segs(s) =~= s);
        } else {
            assert(t.last() == s[s.len() - 2]);
            assert(t.last().number <= s.last().number);
            assert(sort_segs(s) == t.push(s.last()));
            assert(t.push(s.last()) =~= s);
        }
    }
}

/// Wherever the boundary between smaller-or-equal and greater numbers
/// lies, inserting lands the new segment exactly there.
pub proof fn lemma_insert_seg_at(s: Seq<SegV>, x: SegV, j: int)
    requires
        0 <= j <= s.len(),
        forall|t: int| j <= t < s.len() ==> (#[trigger] s[t]).number > x.number,
        j > 0 ==> s[j - 1].number <= x.number,
    ensures
        insert_seg(s, x) == s.subrange(0, j) + seq![x] + s.subrange(j, s.len() as int),
    decreases s.len(),
{
    if j == s.len() {
        if s.len() == 0 {
            assert(insert_seg(s, x) =~= s.subrange(0, j) + seq![x] + s.subrange(
                j,
                s.len() as int,
            ));
        } else {
            assert(s.last().number <= x.number);
            assert(s.push(x) =~= s.subrange(0, j) + seq![x] + s.subrange(j, s.len() as int));
        }
    } else {
        assert(s[s.len() - 1].number > x.number);
        let t = s.drop_last();
        lemma_insert_seg_at(t, x, j);
        assert(forall|q: int| j <= q < t.len() ==> (#[trigger] t[q]).number > x.number);
        assert(insert_seg(s, x) == (t.subrange(0, j) + seq![x] + t.subrange(j, t.len() as int)).push(
            s.last(),
        ));
        assert((t.subrange(0, j) + seq![x] + t.subrange(j, t.len() as int)).push(s.last()) =~= s.subrange(
            0,
            j,
        ) + seq![x] + s.subrange(j, s.len() as int));
    }
}

/// An append-only byte sink whose tracked position never diverges
/// from the length of what it holds.
pub struct BufWriterWithPosition {
    position: u64,
    data: Vec<u8>,
}

impl View for BufWriterWithPosition {
    type V = Seq<u8>;

    closed spec fn view(&self) -> Seq<u8> {
        self.data@
    }
}

impl BufWriterWithPosition {
    /// The tracked position equals the length of the bytes held.
    pub closed spec fn wf(&self) -> bool {
        self.position == self.data@.len()
    }

    /// Opens an appender positioned at the end of the bytes it takes
    /// over.
    pub fn new(data: Vec<u8>) -> (r: Self)
        ensures
            r.wf(),
            r@ == data@,
    {
        let position = data.len() as u64;
        BufWriterWithPosition { position, data }
    }

    /// The number of bytes written so far.
    pub fn get_position(&self) -> (r: u64)
        requires
            self.wf(),
        ensures
            r == self@.len(),
    {
        self.position
    }

    /// Appends all of `bytes` and advances the position past them.
    pub fn write_all(&mut self, bytes: &Vec<u8>)
        requires
            old(self).wf(),
        ensures
            final(self).wf(),
            final(self)@ == old(self)@ + bytes@,
    {
        let mut k: usize = 0;
        while k < bytes.len()
            invariant
                k <= bytes@.len(),
                self.data@ == old(self).data@ + bytes@.take(k as int),
            decreases bytes@.len() - k,
        {
            self.data.push(bytes[k]);
            k = k + 1;
            proof {
                assert(old(self).data@ + bytes@.take(k - 1 as int) + seq![bytes@[k - 1 as int]]
                    =~= old(self).data@ + bytes@.take(k as int));
            }
        }
        proof {
            assert(bytes@.take(bytes@.len() as int) =~= bytes@);
        }
        self.position = self.data.len() as u64;
    }

    /// A view of the bytes held, for positioned reads.
    pub fn data_ref(&self) -> (r: &Vec<u8>)
        ensures
            r@ == self@,
    {
        &self.data
    }

    /// Hands back the bytes held.
    pub fn into_data(self) -> (r: Vec<u8>)
        ensures
            r@ == self@,
    {
        self.data
    }
}

} // verus!
