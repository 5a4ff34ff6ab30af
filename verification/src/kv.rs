//! The log-structured storage engine.
//!
//! The store keeps its key/value pairs as records appended to numbered
//! segments: older, sealed segments and one current segment behind the
//! positioned appender.  An in-memory index maps each live key to the
//! span of the `Set` record that holds its value; a dead-byte counter
//! triggers compaction, which copies every live record into a fresh
//! segment and drops everything older.
//!
//! The invariant proved across every operation: replaying all segments
//! in order yields exactly the key/value mapping the store answers
//! from, so recovery from the segment bytes rebuilds the same store.

use vstd::map::*;
use vstd::prelude::*;

use crate::command::cmd_utf8_ok;
use crate::command::enc_cmd;
use crate::command::lemma_cmd_complete;
use crate::command::lemma_cmd_bounds;
use crate::command::lemma_cmd_embed;
use crate::command::lemma_cmd_prefix;
use crate::command::lemma_cmd_restrict;
use crate::command::parse_cmd;
use crate::command::CmdRaw;
use crate::command::Command;
use crate::command::decode_command;
use crate::command::encode_command;
use crate::errors::KVStoreError;
use crate::index::lemma_utf8_inj;
use crate::index::live_total;
use crate::index::CommandPosition;
use crate::index::Index;
use crate::log::apply_cmd;
use crate::log::distinct_numbers;
use crate::log::has_seg;
use crate::log::insert_seg;
use crate::log::lemma_insert_seg_at;
use crate::log::lemma_sort_id;
use crate::log::lemma_sort_segs;
use crate::log::seg_total;
use crate::log::sort_segs;
use crate::log::apply_cmds;
use crate::log::lemma_apply_cmds_push;
use crate::log::lemma_parse_log_append;
use crate::log::log_wf;
use crate::log::parse_log_from;
use crate::log::replay;
use crate::log::BufWriterWithPosition;
use crate::log::SegV;
use crate::log::Segment;

verus! {

broadcast use vstd::utf8::encode_utf8_valid_utf8, vstd::utf8::decode_utf8_encode_utf8, vstd::utf8::encode_utf8_decode_utf8;

/// Compaction runs once more dead bytes than this have accumulated.
pub const MAX_USELESS_SIZE: u64 = 1024 * 1024;

/// The views of a run of segments, in the same order.
pub open spec fn seg_views(v: Seq<Segment>) -> Seq<SegV> {
    v.map_values(|s: Segment| s@)
}

/// The key/value mapping over strings that a byte-level mapping
/// denotes: each UTF-8 key stands for the string it encodes.
pub open spec fn char_view(m: Map<Seq<u8>, Seq<u8>>) -> Map<Seq<char>, Seq<char>> {
    Map::new(
        |k: Seq<char>| m.contains_key(vstd::utf8::encode_utf8(k)),
        |k: Seq<char>| vstd::utf8::decode_utf8(m[vstd::utf8::encode_utf8(k)]),
    )
}

/// Inserting a pair at the byte level inserts the pair of strings at
/// the string level.
pub proof fn lemma_char_view_insert(m: Map<Seq<u8>, Seq<u8>>, kc: Seq<char>, vc: Seq<char>)
    ensures
        char_view(m.insert(vstd::utf8::encode_utf8(kc), vstd::utf8::encode_utf8(vc)))
            == char_view(m).insert(kc, vc),
{
    let kb = vstd::utf8::encode_utf8(kc);
    let m2 = m.insert(kb, vstd::utf8::encode_utf8(vc));
    assert_maps_equal!(char_view(m2), char_view(m).insert(kc, vc), x => {
        if vstd::utf8::encode_utf8(x) == kb {
            vstd::utf8::encode_utf8_decode_utf8(x);
            vstd::utf8::encode_utf8_decode_utf8(kc);
            assert(x == kc);
            vstd::utf8::encode_utf8_decode_utf8(vc);
        }
    });
}

/// Removing a key at the byte level removes the string it encodes at
/// the string level.
pub proof fn lemma_char_view_remove(m: Map<Seq<u8>, Seq<u8>>, kc: Seq<char>)
    ensures
        char_view(m.remove(vstd::utf8::encode_utf8(kc))) == char_view(m).remove(kc),
{
    let kb = vstd::utf8::encode_utf8(kc);
    let m2 = m.remove(kb);
    assert_maps_equal!(char_view(m2), char_view(m).remove(kc), x => {
        if vstd::utf8::encode_utf8(x) == kb {
            vstd::utf8::encode_utf8_decode_utf8(x);
            vstd::utf8::encode_utf8_decode_utf8(kc);
            assert(x == kc);
        }
    });
}

/// Whether some segment holds, at the span `p`, bytes that parse as
/// exactly the record `c`.
pub open spec fn span_at(segs: Seq<SegV>, p: CommandPosition, c: CmdRaw) -> bool {
    exists|j: int|
        0 <= j < segs.len() && (#[trigger] segs[j]).number == p.file_number && p.offset + p.length
            <= segs[j].data.len() && parse_cmd(segs[j].data, p.offset as int) == Some(
            (c, p.offset + p.length),
        )
}

/// The segments of a store opened over an empty directory: one fresh
/// segment numbered zero.
pub open spec fn fresh_store_segs() -> Seq<SegV> {
    seq![SegV { number: 0, data: Seq::<u8>::empty() }]
}

/// The string mapping that replaying a run of well-formed segments
/// yields: what recovery rebuilds from the bytes on disk.
pub open spec fn recovered_kv(segs: Seq<SegV>) -> Map<Seq<char>, Seq<char>>
    recommends
        replay(segs) is Some,
{
    char_view(replay(segs)->Some_0)
}

/// Saturating addition on the dead-byte counter.
fn add_sat(a: u64, b: u64) -> (r: u64)
    ensures
        r == if a + b > u64::MAX {
            u64::MAX as int
        } else {
            a + b
        },
{
    if a > u64::MAX - b {
        u64::MAX
    } else {
        a + b
    }
}

/// Copies the span `[offset, offset + length)` out of a buffer.
fn copy_span(data: &Vec<u8>, offset: u64, length: u64) -> (r: Vec<u8>)
    requires
        offset + length <= data@.len(),
    ensures
        r@ == data@.subrange(offset as int, offset + length),
{
    let dl = data.len();
    let start = offset as usize;
    let len = length as usize;
    let mut out: Vec<u8> = Vec::new();
    let mut t: usize = 0;
    while t < len
        invariant
            t <= len,
            start + len <= dl,
            dl == data@.len(),
            start == offset,
            len == length,
            out@ == data@.subrange(offset as int, offset + t),
        decreases len - t,
    {
        out.push(data[start + t]);
        t = t + 1;
        proof {
            assert(data@.subrange(offset as int, offset + t) =~= data@.subrange(
                offset as int,
                offset + t - 1,
            ).push(data@[offset + t - 1]));
        }
    }
    out
}

/// The tail that one append adds to a buffer is found at its old end.
proof fn lemma_concat_tail(d: Seq<u8>, x: Seq<u8>)
    ensures
        (d + x).subrange(d.len() as int, d.len() + x.len() as int) == x,
{
    assert forall|t: int|
        0 <= t < x.len() implies (d + x).subrange(d.len() as int, d.len() + x.len() as int)[t]
        == x[t] by {
        assert((d + x)[d.len() + t] == x[t]);
    }
    assert((d + x).subrange(d.len() as int, d.len() + x.len() as int) =~= x);
}

/// A span found among segments is still there after the last segment
/// grows.
proof fn lemma_span_stable(pre: Seq<SegV>, post: Seq<SegV>, x: Seq<u8>, p: CommandPosition, c: CmdRaw)
    requires
        pre.len() == post.len(),
        pre.len() > 0,
        forall|i: int| 0 <= i < pre.len() - 1 ==> post[i] == pre[i],
        post.last().number == pre.last().number,
        post.last().data == pre.last().data + x,
        span_at(pre, p, c),
    ensures
        span_at(post, p, c),
{
    let j = choose|j: int|
        0 <= j < pre.len() && (#[trigger] pre[j]).number == p.file_number && p.offset + p.length
            <= pre[j].data.len() && parse_cmd(pre[j].data, p.offset as int) == Some(
            (c, p.offset + p.length),
        );
    if j == pre.len() - 1 {
        lemma_cmd_prefix(pre.last().data, x, p.offset as int);
        assert(post[j].number == p.file_number && p.offset + p.length <= post[j].data.len()
            && parse_cmd(post[j].data, p.offset as int) == Some((c, p.offset + p.length)));
    } else {
        assert(post[j].number == p.file_number && p.offset + p.length <= post[j].data.len()
            && parse_cmd(post[j].data, p.offset as int) == Some((c, p.offset + p.length)));
    }
}

/// Reorders segments by ascending number, so that recovery replays
/// them oldest first whatever order the directory listed them in.
fn sort_segments(segments: &Vec<Segment>) -> (r: Vec<Segment>)
    ensures
        seg_views(r@) == sort_segs(seg_views(segments@)),
{
    let ghost orig = seg_views(segments@);
    let mut out: Vec<Segment> = Vec::new();
    let mut idx: usize = 0;
    proof {
        assert(orig.take(0) =~= Seq::<SegV>::empty());
        assert(seg_views(out@) =~= Seq::<SegV>::empty());
    }
    while idx < segments.len()
        invariant
            idx <= segments@.len(),
            orig == seg_views(segments@),
            seg_views(out@) == sort_segs(orig.take(idx as int)),
        decreases segments@.len() - idx,
    {
        let s = &segments[idx];
        let dl = s.data.len();
        let data = copy_span(&s.data, 0, dl as u64);
        proof {
            assert(data@ =~= s.data@);
        }
        let x = Segment { number: s.number, data };
        let ghost xv = x@;
        proof {
            assert(orig[idx as int] == segments@[idx as int]@);
            assert(xv == orig[idx as int]);
        }
        let mut j: usize = out.len();
        while j > 0 && out[j - 1].number > x.number
            invariant
                j <= out@.len(),
                forall|t: int| j <= t < out@.len() ==> (#[trigger] out@[t]).number > x.number,
            decreases j,
        {
            j = j - 1;
        }
        let ghost pre = seg_views(out@);
        proof {
            assert forall|t: int| j <= t < pre.len() implies (#[trigger] pre[t]).number
                > xv.number by {
                assert(pre[t] == out@[t]@);
            }
            if j > 0 {
                assert(pre[j - 1] == out@[j - 1]@);
            }
        }
        out.insert(j, x);
        proof {
            lemma_insert_seg_at(pre, xv, j as int);
            assert forall|t: int| 0 <= t < out@.len() implies seg_views(out@)[t] == insert_seg(
                pre,
                xv,
            )[t] by {
                assert(seg_views(out@)[t] == out@[t]@);
                if t < j {
                    assert(out@[t]@ == pre[t]);
                    assert((pre.subrange(0, j as int) + seq![xv] + pre.subrange(
                        j as int,
                        pre.len() as int,
                    ))[t] == pre[t]);
                } else if t == j {
                    assert(out@[t]@ == xv);
                    assert((pre.subrange(0, j as int) + seq![xv] + pre.subrange(
                        j as int,
                        pre.len() as int,
                    ))[t] == xv);
                } else {
                    assert(out@[t]@ == pre[t - 1]);
                    assert((pre.subrange(0, j as int) + seq![xv] + pre.subrange(
                        j as int,
                        pre.len() as int,
                    ))[t] == pre[t - 1]);
                }
            }
            assert(seg_views(out@) =~= insert_seg(pre, xv));
            assert(orig.take(idx + 1).drop_last() =~= orig.take(idx as int));
            assert(orig.take(idx + 1).last() == orig[idx as int]);
            assert(sort_segs(orig.take(idx + 1)) == insert_seg(
                sort_segs(orig.take(idx as int)),
                orig[idx as int],
            ));
        }
        idx = idx + 1;
    }
    proof {
        assert(orig.take(orig.len() as int) =~= orig);
        assert(orig.take(idx as int) == orig);
    }
    out
}

/// A key/value store over a log of numbered append-only segments.
pub struct KvStore {
    sealed: Vec<Segment>,
    current_file_number: u64,
    current_writer: BufWriterWithPosition,
    index: Index,
    useless_size: u64,
    compaction_number: u64,
    model: Ghost<Map<Seq<u8>, Seq<u8>>>,
}

impl KvStore {
    /// The segments of the store, oldest first; the last one is the
    /// current write target.
    pub closed spec fn segs(self) -> Seq<SegV> {
        seg_views(self.sealed@).push(
            SegV { number: self.current_file_number, data: self.current_writer@ },
        )
    }

    /// The key/value mapping the store holds.
    pub closed spec fn kv(self) -> Map<Seq<char>, Seq<char>> {
        char_view(self.model@)
    }

    /// The number of the current write target.
    pub closed spec fn current_num(self) -> u64 {
        self.current_file_number
    }

    /// The smallest segment number still reachable through the index.
    pub closed spec fn compaction_num(self) -> u64 {
        self.compaction_number
    }

    /// The dead-byte counter.
    pub closed spec fn dead_bytes(self) -> u64 {
        self.useless_size
    }

    /// The bytes of records the index still reaches.
    pub closed spec fn live_len(self) -> int {
        live_total(self.index.entries_view())
    }

    /// The well-formedness of the store: segments are numbered
    /// strictly upward and none older than the compaction bound
    /// remains; every segment replays cleanly; the replay of all
    /// segments is exactly the store's mapping; and the index points
    /// each live key at a `Set` record holding its current value.
    pub closed spec fn wf(self) -> bool {
        &&& self.current_writer.wf()
        &&& self.index.wf()
        &&& forall|i: int, j: int|
            0 <= i < j < self.segs().len() ==> (#[trigger] self.segs()[i]).number < (
            #[trigger] self.segs()[j]).number
        &&& forall|i: int|
            0 <= i < self.segs().len() ==> (#[trigger] self.segs()[i]).number
                >= self.compaction_number
        &&& forall|i: int| 0 <= i < self.segs().len() ==> log_wf((#[trigger] self.segs()[i]).data)
        &&& replay(self.segs()) == Some(self.model@)
        &&& forall|k: Seq<u8>| #[trigger]
            self.model@.contains_key(k) ==> vstd::utf8::valid_utf8(k) && vstd::utf8::valid_utf8(
                self.model@[k],
            )
        &&& self.index@.dom() == self.model@.dom()
        &&& forall|k: Seq<u8>| #[trigger]
            self.index@.contains_key(k) ==> span_at(
                self.segs(),
                self.index@[k],
                CmdRaw::SetR(k, self.model@[k]),
            )
        &&& self.useless_size == u64::MAX || self.useless_size as int >= seg_total(self.segs())
            - self.live_len()
    }

    /// The number of the current write target.
    pub fn current_number(&self) -> (r: u64)
        ensures
            r == self.current_num(),
    {
        self.current_file_number
    }

    /// The smallest segment number still reachable through the index.
    pub fn compaction_number(&self) -> (r: u64)
        ensures
            r == self.compaction_num(),
    {
        self.compaction_number
    }

    /// Opens a store over the segments read from its directory, given
    /// oldest first.  Recovery replays every record: it succeeds
    /// exactly when every segment is a clean concatenation of records,
    /// and the recovered store holds exactly the mapping the records
    /// replay to.
    #[verifier::rlimit(60)]
    pub fn open(segments: Vec<Segment>) -> (r: Result<KvStore, KVStoreError>)
        requires
            forall|i: int, j: int|
                0 <= i < j < segments@.len() ==> (#[trigger] segments@[i]).number != (
                #[trigger] segments@[j]).number,
        ensures
            (r is Ok) == (forall|i: int|
                0 <= i < segments@.len() ==> log_wf((#[trigger] segments@[i]).data@)),
            r matches Ok(s) ==> {
                &&& s.wf()
                &&& replay(sort_segs(seg_views(segments@))) is Some
                &&& s.kv() == recovered_kv(sort_segs(seg_views(segments@)))
                &&& s.compaction_num() == 0
                &&& segments@.len() > 0 ==> s.segs() == sort_segs(seg_views(segments@))
                &&& segments@.len() == 0 ==> s.segs() == fresh_store_segs()
            },
    {
        let ghost orig = seg_views(segments@);
        proof {
            lemma_sort_segs(orig);
            assert(distinct_numbers(orig)) by {
                assert forall|i: int, j: int|
                    0 <= i < j < orig.len() implies (#[trigger] orig[i]).number != (
                #[trigger] orig[j]).number by {
                    assert(orig[i] == segments@[i]@);
                    assert(orig[j] == segments@[j]@);
                }
            }
        }
        let sorted = sort_segments(&segments);
        let ghost sv = seg_views(sorted@);
        proof {
            assert(sv == sort_segs(orig));
            assert forall|i: int, j: int|
                0 <= i < j < sv.len() implies (#[trigger] sv[i]).number < (
            #[trigger] sv[j]).number by {
                assert(sv[i].number <= sv[j].number);
                assert(sv[i].number != sv[j].number);
            }
        }
        let mut index = Index::new();
        let ghost mut model_now: Map<Seq<u8>, Seq<u8>> = Map::empty();
        let mut useless_size: u64 = 0;
        let mut si: usize = 0;
        proof {
            assert(sv.take(0) =~= Seq::<SegV>::empty());
            assert(seg_total(sv.take(0)) == 0);
            assert(live_total(index.entries_view()) == 0);
        }
        while si < sorted.len()
            invariant
                si <= sorted@.len(),
                sv == seg_views(sorted@),
                orig == seg_views(segments@),
                sv == sort_segs(orig),
                replay(sv.take(si as int)) == Some(model_now),
                useless_size == u64::MAX || useless_size as int >= seg_total(sv.take(si as int))
                    - live_total(index.entries_view()),
                forall|j: int| 0 <= j < si ==> log_wf((#[trigger] sorted@[j]).data@),
                index.wf(),
                index@.dom() == model_now.dom(),
                forall|k: Seq<u8>| #[trigger]
                    model_now.contains_key(k) ==> vstd::utf8::valid_utf8(k)
                        && vstd::utf8::valid_utf8(model_now[k]),
                forall|k: Seq<u8>| #[trigger]
                    index@.contains_key(k) ==> span_at(
                        sv,
                        index@[k],
                        CmdRaw::SetR(k, model_now[k]),
                    ),
            decreases sorted@.len() - si,
        {
            let seg_number = sorted[si].number;
            let data = &sorted[si].data;
            let dl = data.len();
            let mut pos: usize = 0;
            let ghost model0 = model_now;
            let ghost mut done_now: Seq<CmdRaw> = Seq::empty();
            proof {
                assert(parse_log_from(data@, 0) == prepend_cmds(
                    done_now,
                    parse_log_from(data@, 0),
                )) by {
                    match parse_log_from(data@, 0) {
                        Some(rest) => {
                            assert(Seq::<CmdRaw>::empty() + rest =~= rest);
                        },
                        None => {},
                    }
                }
            }
            while pos < dl
                invariant
                    pos <= dl,
                    dl == data@.len(),
                    sv == seg_views(sorted@),
                    orig == seg_views(segments@),
                    sv == sort_segs(orig),
                    0 <= si < sorted@.len(),
                    data@ == (#[trigger] sorted@[si as int]).data@,
                    seg_number == sorted@[si as int].number,
                    parse_log_from(data@, 0) == prepend_cmds(
                        done_now,
                        parse_log_from(data@, pos as int),
                    ),
                    forall|t: int| 0 <= t < done_now.len() ==> cmd_utf8_ok(#[trigger] done_now[t]),
                    model_now == apply_cmds(model0, done_now),
                    useless_size == u64::MAX || useless_size as int >= seg_total(
                        sv.take(si as int),
                    ) + pos - live_total(index.entries_view()),
                    index.wf(),
                    index@.dom() == model_now.dom(),
                    forall|k: Seq<u8>| #[trigger]
                        model_now.contains_key(k) ==> vstd::utf8::valid_utf8(k)
                            && vstd::utf8::valid_utf8(model_now[k]),
                    forall|k: Seq<u8>| #[trigger]
                        index@.contains_key(k) ==> span_at(
                            sv,
                            index@[k],
                            CmdRaw::SetR(k, model_now[k]),
                        ),
                decreases dl - pos,
            {
                match decode_command(data, pos) {
                    Ok((cmd, e)) => {
                        let ghost cv = cmd@;
                        proof {
                            lemma_cmd_bounds(data@, pos as int);
                            assert(parse_log_from(data@, pos as int) == match parse_log_from(
                                data@,
                                e as int,
                            ) {
                                Some(rest) => Some(seq![cv] + rest),
                                None => None::<Seq<CmdRaw>>,
                            });
                            match parse_log_from(data@, e as int) {
                                Some(rest) => {
                                    assert(done_now + (seq![cv] + rest) =~= done_now.push(cv)
                                        + rest);
                                },
                                None => {},
                            }
                            lemma_apply_cmds_push(model0, done_now, cv);
                        }
                        let pos_entry = CommandPosition {
                            file_number: seg_number,
                            offset: pos as u64,
                            length: (e - pos) as u64,
                        };
                        match cmd {
                            Command::SET(k, _v) => {
                                let replaced = index.insert(k, pos_entry);
                                if let Some(old_pos) = replaced {
                                    useless_size = add_sat(useless_size, old_pos.length);
                                }
                                proof {
                                    model_now = apply_cmd(model_now, cv);
                                    assert(sv[si as int] == sorted@[si as int]@);
                                    assert(sv[si as int].number == pos_entry.file_number);
                                    assert(parse_cmd(sv[si as int].data, pos as int) == Some(
                                        (cv, pos + (e - pos)),
                                    ));
                                    assert(span_at(sv, pos_entry, cv));
                                }
                            },
                            Command::RM(k) => {
                                let removed = index.remove(&k);
                                if let Some(old_pos) = removed {
                                    useless_size = add_sat(useless_size, old_pos.length);
                                }
                                useless_size = add_sat(useless_size, (e - pos) as u64);
                                proof {
                                    model_now = apply_cmd(model_now, cv);
                                }
                            },
                        }
                        proof {
                            done_now = done_now.push(cv);
                        }
                        pos = e;
                    },
                    Err(err) => {
                        proof {
                            if parse_cmd(data@, pos as int) is None {
                                assert(parse_log_from(data@, pos as int) is None);
                                assert(parse_log_from(data@, 0) is None);
                            } else {
                                let (c, e) = parse_cmd(data@, pos as int)->Some_0;
                                lemma_cmd_bounds(data@, pos as int);
                                match parse_log_from(data@, e) {
                                    Some(rest) => {
                                        let full = done_now + (seq![c] + rest);
                                        assert(parse_log_from(data@, 0) == Some(full));
                                        assert((seq![c] + rest)[0] == c);
                                        assert(full[done_now.len() as int] == (seq![c] + rest)[0]);
                                        assert(0 <= done_now.len() < full.len());
                                        assert(!cmd_utf8_ok(
                                            parse_log_from(data@, 0)->Some_0[done_now.len() as int],
                                        ));
                                        assert(!log_wf(data@));
                                    },
                                    None => {
                                        assert(parse_log_from(data@, 0) is None);
                                    },
                                }
                            }
                            assert(!log_wf(sorted@[si as int].data@));
                            lemma_sort_segs(orig);
                            assert(has_seg(sv, sv[si as int])) by {
                                assert(sv[si as int] == sv[si as int]);
                            }
                            assert(has_seg(orig, sv[si as int]));
                            let q = choose|q: int|
                                0 <= q < orig.len() && #[trigger] orig[q] == sv[si as int];
                            assert(orig[q] == segments@[q]@);
                            assert(!log_wf((#[trigger] segments@[q]).data@));
                        }
                        return Err(err);
                    },
                }
            }
            proof {
                assert(parse_log_from(data@, pos as int) == Some(Seq::<CmdRaw>::empty()));
                assert(done_now + Seq::<CmdRaw>::empty() =~= done_now);
                assert(parse_log_from(data@, 0) == Some(done_now));
                assert(log_wf(data@));
                assert(sv.take(si + 1).drop_last() =~= sv.take(si as int));
                assert(sv.take(si + 1).last() == sv[si as int]);
                assert(sv[si as int].data == data@);
                assert(replay(sv.take(si + 1)) == Some(model_now));
                assert(seg_total(sv.take(si + 1)) == seg_total(sv.take(si as int)) + dl);
            }
            si = si + 1;
        }
        proof {
            assert(sv.take(sorted@.len() as int) =~= sv);
            assert forall|i: int|
                0 <= i < segments@.len() implies log_wf(
                (#[trigger] segments@[i]).data@,
            ) by {
                assert(orig[i] == segments@[i]@);
                assert(has_seg(orig, orig[i])) by {
                    assert(orig[i] == orig[i]);
                }
                assert(has_seg(sv, orig[i]));
                let q = choose|q: int| 0 <= q < sv.len() && #[trigger] sv[q] == orig[i];
                assert(log_wf(sv[q].data));
            }
        }
        let ghost model_final = model_now;
        if sorted.len() == 0 {
            let store = KvStore {
                sealed: sorted,
                current_file_number: 0,
                current_writer: BufWriterWithPosition::new(Vec::new()),
                index,
                useless_size,
                compaction_number: 0,
                model: Ghost(model_final),
            };
            proof {
                assert(store.segs().drop_last() =~= Seq::<SegV>::empty());
                assert(parse_log_from(store.segs().last().data, 0) == Some(Seq::<CmdRaw>::empty()));
                assert(replay(store.segs()) == Some(model_final)) by {
                    assert(replay(Seq::<SegV>::empty()) == Some(Map::<Seq<u8>, Seq<u8>>::empty()));
                    assert(model_final =~= Map::<Seq<u8>, Seq<u8>>::empty());
                }
                assert(log_wf(store.segs().last().data));
                assert(store.segs() =~= fresh_store_segs());
                assert(seg_total(store.segs()) == 0) by {
                    assert(seg_total(Seq::<SegV>::empty()) == 0);
                }
                crate::index::lemma_live_total_nonneg(store.index.entries_view());
                assert(store.wf());
                assert(store.kv() =~= recovered_kv(sv));
                assert(recovered_kv(sv) == recovered_kv(sort_segs(seg_views(segments@))));
            }
            Ok(store)
        } else {
            let mut sorted = sorted;
            let last = sorted.pop().unwrap();
            let current_file_number = last.number;
            let store = KvStore {
                sealed: sorted,
                current_file_number,
                current_writer: BufWriterWithPosition::new(last.data),
                index,
                useless_size,
                compaction_number: 0,
                model: Ghost(model_final),
            };
            proof {
                assert(store.segs() =~= sv);
                assert(sv.take(sv.len() as int) =~= sv);
                assert(store.wf());
            }
            Ok(store)
        }
    }

    /// Reads the bytes of a span out of whichever segment it lies in;
    /// what comes back parses standalone to the record the span holds.
    fn read_span(&self, p: CommandPosition, Ghost(c): Ghost<CmdRaw>) -> (r: Vec<u8>)
        requires
            self.wf(),
            span_at(self.segs(), p, c),
        ensures
            r@.len() == p.length,
            parse_cmd(r@, 0) == Some((c, p.length as int)),
    {
        let ghost j = choose|j: int|
            0 <= j < self.segs().len() && (#[trigger] self.segs()[j]).number == p.file_number
                && p.offset + p.length <= self.segs()[j].data.len() && parse_cmd(
                self.segs()[j].data,
                p.offset as int,
            ) == Some((c, p.offset + p.length));
        let mut i: usize = 0;
        while i < self.sealed.len()
            invariant
                i <= self.sealed@.len(),
                self.wf(),
                span_at(self.segs(), p, c),
                0 <= j < self.segs().len() && self.segs()[j].number == p.file_number && p.offset
                    + p.length <= self.segs()[j].data.len() && parse_cmd(
                    self.segs()[j].data,
                    p.offset as int,
                ) == Some((c, p.offset + p.length)),
                forall|q: int|
                    0 <= q < i ==> (#[trigger] self.segs()[q]).number != p.file_number,
            decreases self.sealed@.len() - i,
        {
            proof {
                assert(self.segs()[i as int] == self.sealed@[i as int]@);
            }
            if self.sealed[i].number == p.file_number {
                proof {
                    assert(self.segs()[i as int].number == p.file_number);
                    if j < i as int {
                        assert(self.segs()[j].number != p.file_number);
                    }
                    if j > i as int {
                        assert(self.segs()[i as int].number < self.segs()[j].number);
                    }
                    assert(j == i as int);
                    assert(self.segs()[i as int].data == self.sealed@[i as int].data@);
                    lemma_cmd_restrict(self.sealed@[i as int].data@, p.offset as int);
                }
                return copy_span(&self.sealed[i].data, p.offset, p.length);
            }
            i = i + 1;
        }
        proof {
            assert(j == self.segs().len() - 1) by {
                if j < self.segs().len() - 1 {
                    assert(self.segs()[j].number != p.file_number);
                }
            }
            assert(self.segs().last().data == self.current_writer@);
            lemma_cmd_restrict(self.current_writer@, p.offset as int);
        }
        copy_span(self.current_writer.data_ref(), p.offset, p.length)
    }

    /// Looks a key up.  Never fails on a well-formed store: it returns
    /// the key's current value, or `None` for a key that is absent.
    pub fn get(&self, key: String) -> (r: Result<Option<String>, KVStoreError>)
        requires
            self.wf(),
        ensures
            r is Ok,
            ({
                let v = r->Ok_0;
                match v {
                    Some(s) => self.kv().contains_key(key@) && s@ == self.kv()[key@],
                    None => !self.kv().contains_key(key@),
                }
            }),
    {
        let ghost kb = vstd::utf8::encode_utf8(key@);
        match self.index.get(&key) {
            None => Ok(None),
            Some(p) => {
                let span = self.read_span(p, Ghost(CmdRaw::SetR(kb, self.model@[kb])));
                match decode_command(&span, 0) {
                    Ok((cmd, _e)) => {
                        match cmd {
                            Command::SET(_k, v) => {
                                proof {
                                    assert(cmd@ == CmdRaw::SetR(kb, self.model@[kb]));
                                    assert(vstd::utf8::encode_utf8(v@) == self.model@[kb]);
                                    vstd::utf8::encode_utf8_decode_utf8(v@);
                                }
                                Ok(Some(v))
                            },
                            Command::RM(_k) => {
                                // A span the index reaches holds a `Set`
                                // record: this arm cannot be taken.
                                proof {
                                    assert(cmd@ is SetR);
                                    assert(false);
                                }
                                Err(KVStoreError::UnknownCommandType)
                            },
                        }
                    },
                    Err(_err) => {
                        // A span the index reaches decodes: this arm
                        // cannot be taken.
                        proof {
                            assert(cmd_utf8_ok(CmdRaw::SetR(kb, self.model@[kb])));
                            assert(false);
                        }
                        Err(KVStoreError::UnknownCommandType)
                    },
                }
            },
        }
    }
}

impl KvStore {
    /// After one record is appended to the current segment, every
    /// segment still replays cleanly and the whole replay advances by
    /// exactly that record.
    proof fn lemma_segs_after_append(pre: KvStore, post: KvStore, cv: CmdRaw)
        requires
            pre.wf(),
            post.sealed@ == pre.sealed@,
            post.current_file_number == pre.current_file_number,
            post.current_writer@ == pre.current_writer@ + enc_cmd(cv),
            cmd_utf8_ok(cv),
        ensures
            post.segs().len() == pre.segs().len(),
            forall|i: int| 0 <= i < pre.segs().len() - 1 ==> #[trigger] post.segs()[i]
                == pre.segs()[i],
            forall|i: int|
                0 <= i < pre.segs().len() ==> (#[trigger] post.segs()[i]).number
                    == pre.segs()[i].number,
            post.segs().last().number == pre.segs().last().number,
            post.segs().last().data == pre.segs().last().data + enc_cmd(cv),
            forall|i: int|
                0 <= i < post.segs().len() ==> log_wf((#[trigger] post.segs()[i]).data),
            replay(post.segs()) == Some(apply_cmd(pre.model@, cv)),
            seg_total(post.segs()) == seg_total(pre.segs()) + enc_cmd(cv).len(),
    {
        let ps = pre.segs();
        let qs = post.segs();
        assert(qs.drop_last() =~= ps.drop_last());
        let cs = parse_log_from(ps.last().data, 0)->Some_0;
        assert(log_wf(ps.last().data));
        let enc = enc_cmd(cv);
        assert(enc.subrange(0, enc.len() as int) =~= enc);
        lemma_cmd_complete(enc, 0, cv, enc.len() as int);
        lemma_parse_log_append(ps.last().data, 0, cs, enc, cv);
        assert(parse_log_from(qs.last().data, 0) == Some(cs.push(cv)));
        assert forall|i: int|
            0 <= i < qs.len() implies log_wf((#[trigger] qs[i]).data) by {
            if i < qs.len() - 1 {
                assert(qs[i] == ps[i]);
                assert(log_wf(ps[i].data));
            } else {
                let full = cs.push(cv);
                assert forall|t: int| 0 <= t < full.len() implies cmd_utf8_ok(
                    #[trigger] full[t],
                ) by {
                    if t < cs.len() {
                        assert(full[t] == cs[t]);
                        assert(cmd_utf8_ok(parse_log_from(ps.last().data, 0)->Some_0[t]));
                    } else {
                        assert(full[t] == cv);
                    }
                }
                assert(log_wf(qs[i].data));
            }
        }
        assert(seg_total(qs) == seg_total(ps) + enc_cmd(cv).len()) by {
            assert(seg_total(qs) == seg_total(qs.drop_last()) + qs.last().data.len());
            assert(seg_total(ps) == seg_total(ps.drop_last()) + ps.last().data.len());
        }
        let m0 = replay(ps.drop_last())->Some_0;
        assert(replay(ps) == Some(apply_cmds(m0, cs)));
        assert(apply_cmds(m0, cs) == pre.model@);
        lemma_apply_cmds_push(m0, cs, cv);
        assert(replay(qs) == Some(apply_cmds(m0, cs.push(cv))));
    }

    /// Binds a key to a value.  The record is appended to the current
    /// segment, the index is repointed, and the bytes of any record
    /// the new one shadows are counted dead; past the dead-byte
    /// threshold, compaction runs.
    pub fn set(&mut self, key: String, value: String) -> (r: Result<(), KVStoreError>)
        requires
            old(self).wf(),
        ensures
            final(self).wf(),
            r is Ok,
            final(self).kv() == old(self).kv().insert(key@, value@),
            final(self).dead_bytes() <= MAX_USELESS_SIZE || final(self).current_num() > u64::MAX
                - 2,
            (final(self).current_num() == old(self).current_num() && final(self).compaction_num()
                == old(self).compaction_num()) || (final(self).dead_bytes() == 0
                && final(self).compaction_num() == old(self).current_num() + 1
                && final(self).current_num() == old(self).current_num() + 2),
    {
        let ghost kb = vstd::utf8::encode_utf8(key@);
        let ghost vb = vstd::utf8::encode_utf8(value@);
        let ghost cv = CmdRaw::SetR(kb, vb);
        let command = Command::SET(key, value);
        let data = encode_command(&command);
        let offset = self.current_writer.get_position();
        self.current_writer.write_all(&data);
        let length = self.current_writer.get_position() - offset;
        let file_number = self.current_file_number;
        proof {
            KvStore::lemma_segs_after_append(*old(self), *self, cv);
        }
        let pos_entry = CommandPosition { file_number, offset, length };
        if let Command::SET(key2, _value2) = command {
            let replaced = self.index.insert(key2, pos_entry);
            if let Some(p) = replaced {
                self.useless_size = add_sat(self.useless_size, p.length);
            }
        }
        proof {
            self.model@ = old(self).model@.insert(kb, vb);
            let pre = *old(self);
            assert(self.segs().len() == pre.segs().len());
            assert(self.index@.dom() =~= self.model@.dom());
            lemma_concat_tail(pre.segs().last().data, enc_cmd(cv));
            assert(self.segs().last().data.subrange(
                offset as int,
                offset + length,
            ) == enc_cmd(cv));
            assert(span_at(self.segs(), pos_entry, cv)) by {
                let j = self.segs().len() - 1;
                let enc = enc_cmd(cv);
                assert(enc.subrange(0, enc.len() as int) =~= enc);
                lemma_cmd_complete(enc, 0, cv, enc.len() as int);
                lemma_cmd_embed(enc, self.segs()[j].data, offset as int);
                assert((#[trigger] self.segs()[j]).number == pos_entry.file_number && pos_entry.offset
                    + pos_entry.length <= self.segs()[j].data.len() && parse_cmd(
                    self.segs()[j].data,
                    pos_entry.offset as int,
                ) == Some((cv, pos_entry.offset + pos_entry.length)));
            }
            assert forall|k: Seq<u8>| #[trigger]
                self.index@.contains_key(k) implies span_at(
                self.segs(),
                self.index@[k],
                CmdRaw::SetR(k, self.model@[k]),
            ) by {
                if k == kb {
                } else {
                    assert(pre.index@.contains_key(k) && pre.index@[k] == self.index@[k]);
                    assert(span_at(pre.segs(), pre.index@[k], CmdRaw::SetR(k, pre.model@[k])));
                    lemma_span_stable(
                        pre.segs(),
                        self.segs(),
                        enc_cmd(cv),
                        pre.index@[k],
                        CmdRaw::SetR(k, pre.model@[k]),
                    );
                }
            }
            assert(self.wf());
            lemma_char_view_insert(pre.model@, key@, value@);
        }
        if self.useless_size > MAX_USELESS_SIZE && self.current_file_number <= u64::MAX - 2 {
            let res = self.compact();
            proof {
                assert(res is Ok);
            }
        }
        Ok(())
    }

    /// Unbinds a key.  A key that is not live fails with
    /// `KeyNotFound` and changes nothing; otherwise a tombstone is
    /// appended, the index entry leaves, and both the record it
    /// pointed at and the tombstone itself are counted dead.
    pub fn remove(&mut self, key: String) -> (r: Result<(), KVStoreError>)
        requires
            old(self).wf(),
        ensures
            final(self).wf(),
            old(self).kv().contains_key(key@) ==> r is Ok && final(self).kv() == old(
                self,
            ).kv().remove(key@) && (final(self).dead_bytes() <= MAX_USELESS_SIZE
                || final(self).current_num() > u64::MAX - 2),
            old(self).kv().contains_key(key@) ==> ((final(self).current_num() == old(
                self,
            ).current_num() && final(self).compaction_num() == old(self).compaction_num()) || (
            final(self).dead_bytes() == 0 && final(self).compaction_num() == old(
                self,
            ).current_num() + 1 && final(self).current_num() == old(self).current_num() + 2)),
            !old(self).kv().contains_key(key@) ==> (r matches Err(KVStoreError::KeyNotFound))
                && final(self).kv() == old(self).kv() && final(self).segs() == old(self).segs()
                && final(self).dead_bytes() == old(self).dead_bytes(),
    {
        let ghost kb = vstd::utf8::encode_utf8(key@);
        match self.index.remove(&key) {
            None => {
                proof {
                    assert(!old(self).index@.contains_key(kb));
                    assert(old(self).index@.remove(kb) =~= old(self).index@);
                    assert(self.index@ == old(self).index@);
                    assert(self.wf());
                }
                Err(KVStoreError::KeyNotFound)
            },
            Some(p) => {
                self.useless_size = add_sat(self.useless_size, p.length);
                let ghost cv = CmdRaw::RmR(kb);
                let command = Command::RM(key);
                let data = encode_command(&command);
                let offset = self.current_writer.get_position();
                self.current_writer.write_all(&data);
                let length = self.current_writer.get_position() - offset;
                self.useless_size = add_sat(self.useless_size, length);
                proof {
                    let pre = *old(self);
                    assert(self.sealed@ == pre.sealed@);
                    assert(self.index@ == pre.index@.remove(kb));
                    KvStore::lemma_segs_after_append(pre, *self, cv);
                    self.model@ = pre.model@.remove(kb);
                    assert(self.index@.dom() =~= self.model@.dom());
                    assert forall|k: Seq<u8>| #[trigger]
                        self.index@.contains_key(k) implies span_at(
                        self.segs(),
                        self.index@[k],
                        CmdRaw::SetR(k, self.model@[k]),
                    ) by {
                        assert(pre.index@.contains_key(k) && pre.index@[k] == self.index@[k]);
                        assert(span_at(pre.segs(), pre.index@[k], CmdRaw::SetR(k, pre.model@[k])));
                        lemma_span_stable(
                            pre.segs(),
                            self.segs(),
                            enc_cmd(cv),
                            pre.index@[k],
                            CmdRaw::SetR(k, pre.model@[k]),
                        );
                    }
                    assert(self.wf());
                    lemma_char_view_remove(pre.model@, key@);
                }
                if self.useless_size > MAX_USELESS_SIZE && self.current_file_number
                    <= u64::MAX - 2 {
                    let res = self.compact();
                    proof {
                        assert(res is Ok);
                    }
                }
                Ok(())
            },
        }
    }

    /// Compacts the log: copies the record of every live key into a
    /// fresh segment, publishes that segment's number as the
    /// compaction bound, drops every older segment, resets the
    /// dead-byte counter and opens a further segment as the new write
    /// target.  The key/value mapping is unchanged, and no segment
    /// numbered below the bound remains.
    pub fn compact(&mut self) -> (r: Result<(), KVStoreError>)
        requires
            old(self).wf(),
            old(self).current_num() <= u64::MAX - 2,
        ensures
            final(self).wf(),
            r is Ok,
            final(self).kv() == old(self).kv(),
            final(self).dead_bytes() == 0,
            final(self).compaction_num() == old(self).current_num() + 1,
            final(self).current_num() == old(self).current_num() + 2,
            forall|i: int|
                0 <= i < final(self).segs().len() ==> (#[trigger] final(self).segs()[i]).number
                    >= final(self).compaction_num(),
    {
        let target = self.current_file_number + 1;
        let mut w = BufWriterWithPosition::new(Vec::new());
        let mut new_index = Index::new();
        let ghost mut done: Seq<CmdRaw> = Seq::empty();
        let ghost mut mm: Map<Seq<u8>, Seq<u8>> = Map::empty();
        let n = self.index.len();
        let mut i: usize = 0;
        proof {
            assert(parse_log_from(w@, 0) == Some(Seq::<CmdRaw>::empty()));
            assert(apply_cmds(Map::<Seq<u8>, Seq<u8>>::empty(), done) == mm);
            assert(live_total(new_index.entries_view()) == 0);
        }
        while i < n
            invariant
                i <= n,
                *self == *old(self),
                self.wf(),
                n == self.index.entries_view().len(),
                w.wf(),
                new_index.wf(),
                parse_log_from(w@, 0) == Some(done),
                forall|t: int| 0 <= t < done.len() ==> cmd_utf8_ok(#[trigger] done[t]),
                apply_cmds(Map::<Seq<u8>, Seq<u8>>::empty(), done) == mm,
                forall|k: Seq<u8>| #[trigger]
                    mm.contains_key(k) ==> self.model@.contains_key(k) && mm[k] == self.model@[k],
                forall|j: int|
                    0 <= j < i ==> mm.contains_key(
                        vstd::utf8::encode_utf8((#[trigger] self.index.entries_view()[j]).0),
                    ),
                forall|k: Seq<u8>| #[trigger]
                    mm.contains_key(k) ==> exists|j: int|
                        0 <= j < i && vstd::utf8::encode_utf8(
                            (#[trigger] self.index.entries_view()[j]).0,
                        ) == k,
                new_index@.dom() == mm.dom(),
                forall|k: Seq<u8>| #[trigger]
                    new_index@.contains_key(k) ==> {
                        let p = new_index@[k];
                        &&& p.file_number == target
                        &&& p.offset + p.length <= w@.len()
                        &&& parse_cmd(w@, p.offset as int) == Some(
                            (CmdRaw::SetR(k, mm[k]), p.offset + p.length),
                        )
                    },
                live_total(new_index.entries_view()) == w@.len(),
                target == self.current_file_number + 1,
                self.current_file_number <= u64::MAX - 2,
            decreases n - i,
        {
            let (k, p) = self.index.entry_at(i);
            let ghost kb = vstd::utf8::encode_utf8(k@);
            proof {
                self.index.lemma_entries_agree();
                assert(self.index@.contains_key(kb) && self.index@[kb] == p);
            }
            let ghost vb = self.model@[kb];
            let span = self.read_span(p, Ghost(CmdRaw::SetR(kb, vb)));
            let offset = w.get_position();
            let ghost w0 = w@;
            w.write_all(&span);
            let length = w.get_position() - offset;
            proof {
                lemma_parse_log_append(w0, 0, done, span@, CmdRaw::SetR(kb, vb));
                lemma_apply_cmds_push(Map::<Seq<u8>, Seq<u8>>::empty(), done, CmdRaw::SetR(kb, vb));
                lemma_concat_tail(w0, span@);
                done = done.push(CmdRaw::SetR(kb, vb));
            }
            let replaced = new_index.insert(k, CommandPosition { file_number: target, offset, length });
            proof {
                assert(replaced is None) by {
                    if mm.contains_key(kb) {
                        let j = choose|j: int|
                            0 <= j < i && vstd::utf8::encode_utf8(
                                (#[trigger] self.index.entries_view()[j]).0,
                            ) == kb;
                        lemma_utf8_inj(
                            self.index.entries_view()[j].0,
                            self.index.entries_view()[i as int].0,
                        );
                        assert(false);
                    }
                }
                mm = mm.insert(kb, vb);
                assert(live_total(new_index.entries_view()) == w@.len());
                assert(new_index@.dom() =~= mm.dom());
                assert forall|k2: Seq<u8>| #[trigger]
                    new_index@.contains_key(k2) implies {
                    let p2 = new_index@[k2];
                    &&& p2.file_number == target
                    &&& p2.offset + p2.length <= w@.len()
                    &&& parse_cmd(w@, p2.offset as int) == Some(
                        (CmdRaw::SetR(k2, mm[k2]), p2.offset + p2.length),
                    )
                } by {
                    if k2 == kb {
                        assert(w@.subrange(offset as int, offset + length) == span@);
                        lemma_cmd_embed(span@, w@, offset as int);
                    } else {
                        let p2 = new_index@[k2];
                        lemma_cmd_prefix(w0, span@, p2.offset as int);
                    }
                }
                assert forall|k2: Seq<u8>| #[trigger]
                    mm.contains_key(k2) implies exists|j: int|
                    0 <= j < i + 1 && vstd::utf8::encode_utf8(
                        (#[trigger] self.index.entries_view()[j]).0,
                    ) == k2 by {
                    if k2 == kb {
                        assert(vstd::utf8::encode_utf8(self.index.entries_view()[i as int].0)
                            == k2);
                    }
                }
            }
            i = i + 1;
        }
        proof {
            self.index.lemma_entries_agree();
            assert(mm =~= self.model@) by {
                assert forall|k: Seq<u8>| #[trigger] self.model@.contains_key(k) implies
                    mm.contains_key(k) by {
                    assert(self.index@.contains_key(k));
                    let j = choose|j: int|
                        0 <= j < self.index.entries_view().len() && vstd::utf8::encode_utf8(
                            (#[trigger] self.index.entries_view()[j]).0,
                        ) == k;
                    assert(mm.contains_key(
                        vstd::utf8::encode_utf8(self.index.entries_view()[j].0),
                    ));
                }
            }
        }
        let mut sealed: Vec<Segment> = Vec::new();
        sealed.push(Segment { number: target, data: w.into_data() });
        self.sealed = sealed;
        self.current_file_number = target + 1;
        self.current_writer = BufWriterWithPosition::new(Vec::new());
        self.index = new_index;
        self.useless_size = 0;
        self.compaction_number = target;
        proof {
            let segs = self.segs();
            assert(segs.len() == 2);
            assert(segs[0] == SegV { number: target, data: w@ });
            assert(segs[1] == SegV { number: (target + 1) as u64, data: Seq::<u8>::empty() });
            assert(parse_log_from(segs[1].data, 0) == Some(Seq::<CmdRaw>::empty()));
            assert(log_wf(segs[1].data));
            assert(log_wf(segs[0].data));
            assert(replay(segs) == Some(self.model@)) by {
                assert(segs.drop_last().drop_last() =~= Seq::<SegV>::empty());
                assert(replay(Seq::<SegV>::empty()) == Some(Map::<Seq<u8>, Seq<u8>>::empty()));
                assert(segs.drop_last().last() == segs[0]);
                assert(replay(segs.drop_last()) == Some(mm));
                assert(apply_cmds(mm, Seq::<CmdRaw>::empty()) == mm);
            }
            assert(seg_total(segs) == w@.len()) by {
                assert(segs.drop_last().drop_last() =~= Seq::<SegV>::empty());
                assert(seg_total(Seq::<SegV>::empty()) == 0);
                assert(segs.drop_last().last() == segs[0]);
                assert(seg_total(segs.drop_last()) == seg_total(segs.drop_last().drop_last())
                    + segs.drop_last().last().data.len());
                assert(segs.last() == segs[1]);
                assert(seg_total(segs) == seg_total(segs.drop_last()) + segs.last().data.len());
            }
            assert(self.live_len() == w@.len());
            assert forall|k: Seq<u8>| #[trigger]
                self.index@.contains_key(k) implies span_at(
                self.segs(),
                self.index@[k],
                CmdRaw::SetR(k, self.model@[k]),
            ) by {
                let p = self.index@[k];
                assert(self.segs()[0].number == p.file_number && p.offset + p.length
                    <= self.segs()[0].data.len() && parse_cmd(self.segs()[0].data, p.offset as int)
                    == Some((CmdRaw::SetR(k, self.model@[k]), p.offset + p.length)));
            }
            assert(self.wf());
        }
        Ok(())
    }
}

impl KvStore {
    /// The dead-byte counter: an upper estimate of the bytes no index
    /// entry reaches any more.
    pub fn useless_size(&self) -> (r: u64)
        ensures
            r == self.dead_bytes(),
    {
        self.useless_size
    }

    /// A copy of every segment the store holds, oldest first: what a
    /// mirror writes to disk, and what `open` takes back.
    pub fn segments(&self) -> (r: Vec<Segment>)
        requires
            self.wf(),
        ensures
            seg_views(r@) == self.segs(),
    {
        let mut out: Vec<Segment> = Vec::new();
        let mut i: usize = 0;
        while i < self.sealed.len()
            invariant
                i <= self.sealed@.len(),
                self.wf(),
                seg_views(out@) == seg_views(self.sealed@).take(i as int),
            decreases self.sealed@.len() - i,
        {
            let s = &self.sealed[i];
            let dl = s.data.len();
            let data = copy_span(&s.data, 0, dl as u64);
            proof {
                assert(data@ =~= s.data@);
            }
            let ghost out0 = out@;
            out.push(Segment { number: s.number, data });
            proof {
                assert(out0.len() == i) by {
                    assert(seg_views(out0).len() == out0.len());
                    assert(seg_views(self.sealed@).take(i as int).len() == i);
                }
                assert forall|q: int| 0 <= q <= i implies seg_views(out@)[q] == seg_views(
                    self.sealed@,
                )[q] by {
                    assert(seg_views(out@)[q] == out@[q]@);
                    assert(seg_views(self.sealed@)[q] == self.sealed@[q]@);
                    if q < i {
                        assert(out@[q] == out0[q]);
                        assert(seg_views(out0)[q] == out0[q]@);
                        assert(seg_views(out0)[q] == seg_views(self.sealed@).take(i as int)[q]);
                    } else {
                        assert(out@[q]@ == self.sealed@[q]@);
                    }
                }
                assert(seg_views(out@) =~= seg_views(self.sealed@).take(i + 1));
            }
            i = i + 1;
        }
        let wd = self.current_writer.data_ref();
        let dl = wd.len();
        let data = copy_span(wd, 0, dl as u64);
        proof {
            assert(data@ =~= self.current_writer@);
            assert(seg_views(out@) =~= seg_views(self.sealed@));
        }
        out.push(Segment { number: self.current_file_number, data });
        proof {
            assert(seg_views(out@) =~= self.segs());
        }
        out
    }

    /// Read-your-writes: once a store's mapping took the write of `v`
    /// under `k`, reading `k` gives exactly `v`, and no other key
    /// moved.
    pub proof fn lemma_read_your_writes(pre: KvStore, post: KvStore, k: Seq<char>, v: Seq<char>)
        requires
            post.kv() == pre.kv().insert(k, v),
        ensures
            post.kv().contains_key(k),
            post.kv()[k] == v,
            forall|k2: Seq<char>|
                k2 != k ==> #[trigger] post.kv().contains_key(k2) == pre.kv().contains_key(k2),
            forall|k2: Seq<char>|
                k2 != k && pre.kv().contains_key(k2) ==> #[trigger] post.kv()[k2] == pre.kv()[k2],
    {
    }

    /// Tombstone durability: once a store's mapping took the removal
    /// of `k`, reading `k` finds nothing, and no other key moved.
    /// Together with recovery equivalence this holds across a restart
    /// too.
    pub proof fn lemma_tombstone_durability(pre: KvStore, post: KvStore, k: Seq<char>)
        requires
            post.kv() == pre.kv().remove(k),
        ensures
            !post.kv().contains_key(k),
            forall|k2: Seq<char>|
                k2 != k ==> #[trigger] post.kv().contains_key(k2) == pre.kv().contains_key(k2),
            forall|k2: Seq<char>|
                k2 != k && pre.kv().contains_key(k2) ==> #[trigger] post.kv()[k2] == pre.kv()[k2],
    {
    }

    /// The dead-byte counter never undercounts: unless it has
    /// saturated, it is at least the number of bytes in the log that
    /// the index no longer reaches.
    pub proof fn lemma_dead_bytes_overestimate(s: KvStore)
        requires
            s.wf(),
        ensures
            s.dead_bytes() == u64::MAX || s.dead_bytes() as int >= seg_total(s.segs())
                - s.live_len(),
    {
    }

    /// Bounded growth: while the dead-byte counter sits at or below
    /// the compaction threshold — which every write re-establishes
    /// while segment numbers last — the whole log holds at most the
    /// live bytes plus the threshold.
    pub proof fn lemma_bounded_growth(s: KvStore)
        requires
            s.wf(),
            s.dead_bytes() <= MAX_USELESS_SIZE,
        ensures
            seg_total(s.segs()) <= s.live_len() + MAX_USELESS_SIZE,
    {
    }

    /// Recovery equivalence: the segments a well-formed store holds
    /// replay to exactly the mapping the store answers from, and they
    /// meet everything `open` asks of them — so closing the store and
    /// reopening on its segments yields an identical mapping.
    pub proof fn lemma_recovery_equivalence(s: KvStore)
        requires
            s.wf(),
        ensures
            forall|i: int, j: int|
                0 <= i < j < s.segs().len() ==> (#[trigger] s.segs()[i]).number < (
                #[trigger] s.segs()[j]).number,
            forall|i: int| 0 <= i < s.segs().len() ==> log_wf((#[trigger] s.segs()[i]).data),
            replay(s.segs()) is Some,
            sort_segs(s.segs()) == s.segs(),
            recovered_kv(s.segs()) == s.kv(),
    {
        lemma_sort_id(s.segs());
    }
}

/// Prepends already-replayed records to the parse of the rest of a
/// segment; the shape of the recovery loop invariant.
pub open spec fn prepend_cmds(done: Seq<CmdRaw>, r: Option<Seq<CmdRaw>>) -> Option<Seq<CmdRaw>> {
    match r {
        Some(rest) => Some(done + rest),
        None => None,
    }
}

} // verus!
