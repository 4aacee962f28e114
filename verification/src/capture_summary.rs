//! Tallies of a capture for its report: how often each packet or frame
//! summary occurs, and the candidate server responses grouped by channel,
//! phase and message type, each in ascending key order.

use vstd::prelude::*;
use vstd::string::StringExecFns;
use crate::capture::{PacketRecord, FrameRecord};
use crate::capture_log::CandidateRecord;
use crate::logtext::chars_of;

verus! {

/// Strict lexicographic order of texts by code point (the order of their
/// UTF-8 bytes).
pub open spec fn seq_lt(a: Seq<char>, b: Seq<char>) -> bool
    decreases a.len(),
{
    if a.len() == 0 {
        b.len() > 0
    } else if b.len() == 0 {
        false
    } else if a[0] != b[0] {
        a[0] < b[0]
    } else {
        seq_lt(a.drop_first(), b.drop_first())
    }
}

/// `seq_lt` is a strict total order.
pub proof fn lemma_seq_lt_order(a: Seq<char>, b: Seq<char>, c: Seq<char>)
    ensures
        !seq_lt(a, a),
        a != b ==> (seq_lt(a, b) || seq_lt(b, a)),
        !(seq_lt(a, b) && seq_lt(b, a)),
        seq_lt(a, b) && seq_lt(b, c) ==> seq_lt(a, c),
    decreases a.len(),
{
    if a.len() > 0 {
        lemma_seq_lt_order(a.drop_first(), a.drop_first(), a.drop_first());
        if b.len() > 0 {
            lemma_seq_lt_order(a.drop_first(), b.drop_first(), b.drop_first());
            if c.len() > 0 {
                lemma_seq_lt_order(a.drop_first(), b.drop_first(), c.drop_first());
            }
            if a != b && a[0] == b[0] {
                assert(a.drop_first() != b.drop_first()) by {
                    if a.drop_first() == b.drop_first() {
                        assert(a =~= seq![a[0]] + a.drop_first());
                        assert(b =~= seq![b[0]] + b.drop_first());
                    }
                }
            }
        }
    } else {
        if b.len() == 0 {
            assert(a =~= b);
        }
    }
}

fn text_lt(a: &[char], b: &[char]) -> (r: bool)
    ensures
        r == seq_lt(a@, b@),
{
    let mut i: usize = 0;
    proof {
        assert(a@.skip(0) =~= a@);
        assert(b@.skip(0) =~= b@);
    }
    while i < a.len() && i < b.len()
        invariant
            0 <= i <= a@.len(),
            i <= b@.len(),
            seq_lt(a@, b@) == seq_lt(a@.skip(i as int), b@.skip(i as int)),
        decreases a@.len() - i,
    {
        proof {
            assert(a@.skip(i as int).drop_first() =~= a@.skip(i + 1));
            assert(b@.skip(i as int).drop_first() =~= b@.skip(i + 1));
        }
        if a[i] != b[i] {
            return a[i] < b[i];
        }
        i = i + 1;
    }
    i < b.len()
}

/// How often `t` occurs in `ts`.
pub open spec fn occurrences(ts: Seq<Seq<char>>, t: Seq<char>) -> nat
    decreases ts.len(),
{
    if ts.len() == 0 {
        0
    } else {
        occurrences(ts.drop_last(), t) + if ts.last() == t { 1nat } else { 0nat }
    }
}

/// `counts` tallies `ts`: its texts ascend strictly, each with the number
/// of its occurrences, and every text of `ts` is there.
pub open spec fn is_tally(counts: Seq<(Seq<char>, nat)>, ts: Seq<Seq<char>>) -> bool {
    &&& forall|i: int, j: int| 0 <= i < j < counts.len() ==> seq_lt(#[trigger] counts[i].0, #[trigger] counts[j].0)
    &&& forall|i: int| 0 <= i < counts.len() ==> #[trigger] counts[i].1 == occurrences(ts, counts[i].0) && counts[i].1 > 0
    &&& forall|k: int| 0 <= k < ts.len() ==> listed(counts, #[trigger] ts[k])
}

/// `t` has an entry in `counts`.
pub open spec fn listed(counts: Seq<(Seq<char>, nat)>, t: Seq<char>) -> bool {
    exists|i: int| 0 <= i < counts.len() && #[trigger] counts[i].0 == t
}

pub open spec fn tally_view(v: Seq<(String, usize)>) -> Seq<(Seq<char>, nat)> {
    v.map_values(|p: (String, usize)| (p.0@, p.1 as nat))
}

proof fn lemma_occurrences_bound(ts: Seq<Seq<char>>, t: Seq<char>)
    ensures
        occurrences(ts, t) <= ts.len(),
    decreases ts.len(),
{
    if ts.len() > 0 {
        lemma_occurrences_bound(ts.drop_last(), t);
    }
}

/// Adds one occurrence of `t` to a tally of `prefix`, keeping it sorted.
fn tally_add(counts: &mut Vec<(String, usize)>, t: &str, Ghost(prefix): Ghost<Seq<Seq<char>>>)
    requires
        is_tally(tally_view(old(counts)@), prefix),
        prefix.len() < usize::MAX,
    ensures
        is_tally(tally_view(final(counts)@), prefix.push(t@)),
{
    let tc = chars_of(t);
    let ghost all = prefix.push(t@);
    proof {
        assert(all.drop_last() =~= prefix);
        lemma_occurrences_bound(prefix, t@);
    }
    let mut i: usize = 0;
    while i < counts.len()
        invariant
            counts@ == old(counts)@,
            is_tally(tally_view(counts@), prefix),
            tc@ == t@,
            0 <= i <= counts@.len(),
            forall|j: int| 0 <= j < i ==> seq_lt(#[trigger] counts@[j].0@, t@),
        ensures
            0 <= i <= counts@.len(),
            counts@ == old(counts)@,
            forall|j: int| 0 <= j < i ==> seq_lt(#[trigger] counts@[j].0@, t@),
            i < counts@.len() ==> !seq_lt(counts@[i as int].0@, t@),
        decreases counts@.len() - i,
    {
        let key = chars_of(counts[i].0.as_str());
        if !text_lt(key.as_slice(), tc.as_slice()) {
            break;
        }
        i = i + 1;
    }
    let ghost tv = tally_view(counts@);
    if i < counts.len() && text_eq(&counts[i].0, t) {
        let n = counts[i].1;
        proof {
            assert(tv[i as int] == (counts@[i as int].0@, counts@[i as int].1 as nat));
            assert(tv[i as int].0 == t@);
            assert(tv[i as int].1 == occurrences(prefix, tv[i as int].0));
            assert(n == occurrences(prefix, t@));
        }
        let s = counts[i].0.clone();
        counts[i] = (s, n + 1);
        proof {
            let nv = tally_view(counts@);
            assert forall|j: int| 0 <= j < nv.len() implies #[trigger] nv[j].0 == tv[j].0 by {
                if j == i {
                    assert(nv[j].0 == t@);
                }
            }
            assert forall|a: int, b: int| 0 <= a < b < nv.len() implies seq_lt(#[trigger] nv[a].0, #[trigger] nv[b].0) by {
                assert(nv[a].0 == tv[a].0 && nv[b].0 == tv[b].0);
            }
            assert forall|j: int| 0 <= j < nv.len() implies #[trigger] nv[j].1 == occurrences(all, nv[j].0) && nv[j].1 > 0 by {
                if j != i {
                    assert(nv[j] == tv[j]);
                    if tv[j].0 == t@ {
                        lemma_seq_lt_order(tv[j].0, tv[i as int].0, tv[i as int].0);
                    }
                }
            }
            assert forall|k: int| 0 <= k < all.len() implies listed(nv, #[trigger] all[k]) by {
                if k < prefix.len() {
                    let j = choose|j: int| 0 <= j < tv.len() && #[trigger] tv[j].0 == prefix[k];
                    assert(listed(tv, prefix[k]));
                    assert(nv[j].0 == all[k]);
                } else {
                    assert(nv[i as int].0 == all[k]);
                }
            }
        }
    } else {
        let s = String::from_str(t);
        let ghost before = counts@;
        counts.insert(i, (s, 1));
        proof {
            let nv = tally_view(counts@);
            assert(nv =~= tv.insert(i as int, (t@, 1nat)));
            if i < tv.len() {
                assert(tv[i as int] == (before[i as int].0@, before[i as int].1 as nat));
                lemma_seq_lt_order(t@, tv[i as int].0, tv[i as int].0);
                assert(seq_lt(t@, tv[i as int].0));
            }
            assert(occurrences(prefix, t@) == 0) by {
                if occurrences(prefix, t@) > 0 {
                    lemma_occurrence_witness(prefix, t@);
                    let k = choose|k: int| 0 <= k < prefix.len() && prefix[k] == t@;
                    let j = choose|j: int| 0 <= j < tv.len() && #[trigger] tv[j].0 == prefix[k];
                    assert(listed(tv, prefix[k]));
                    if j < i {
                        lemma_seq_lt_order(tv[j].0, t@, t@);
                    } else {
                        lemma_seq_lt_order(t@, tv[i as int].0, tv[j].0);
                        if j > i {
                            assert(seq_lt(tv[i as int].0, tv[j].0));
                        }
                    }
                }
            }
            assert forall|a: int, b: int| 0 <= a < b < nv.len() implies seq_lt(#[trigger] nv[a].0, #[trigger] nv[b].0) by {
                if b < i {
                } else if a < i && b == i {
                } else if a < i && b > i {
                    lemma_seq_lt_order(tv[a].0, t@, tv[b - 1].0);
                    if b - 1 > i {
                        lemma_seq_lt_order(t@, tv[i as int].0, tv[b - 1].0);
                    }
                } else if a == i {
                    if b - 1 > i {
                        lemma_seq_lt_order(t@, tv[i as int].0, tv[b - 1].0);
                    }
                } else {
                }
            }
            assert forall|j: int| 0 <= j < nv.len() implies #[trigger] nv[j].1 == occurrences(all, nv[j].0) && nv[j].1 > 0 by {
                if j < i {
                    assert(nv[j] == tv[j]);
                    lemma_seq_lt_order(tv[j].0, t@, t@);
                } else if j > i {
                    assert(nv[j] == tv[j - 1]);
                    if j - 1 > i {
                        lemma_seq_lt_order(t@, tv[i as int].0, tv[j - 1].0);
                    }
                    lemma_seq_lt_order(t@, tv[j - 1].0, tv[j - 1].0);
                }
            }
            assert forall|k: int| 0 <= k < all.len() implies listed(nv, #[trigger] all[k]) by {
                if k < prefix.len() {
                    let j = choose|j: int| 0 <= j < tv.len() && #[trigger] tv[j].0 == prefix[k];
                    assert(listed(tv, prefix[k]));
                    if j < i {
                        assert(nv[j].0 == all[k]);
                    } else {
                        assert(nv[j + 1].0 == all[k]);
                    }
                } else {
                    assert(nv[i as int].0 == all[k]);
                }
            }
        }
    }
}

proof fn lemma_occurrence_witness(ts: Seq<Seq<char>>, t: Seq<char>)
    requires
        occurrences(ts, t) > 0,
    ensures
        exists|k: int| 0 <= k < ts.len() && ts[k] == t,
    decreases ts.len(),
{
    if ts.last() == t {
        assert(ts[ts.len() - 1] == t);
    } else {
        lemma_occurrence_witness(ts.drop_last(), t);
        let k = choose|k: int| 0 <= k < ts.drop_last().len() && ts.drop_last()[k] == t;
        assert(ts[k] == t);
    }
}

fn text_eq(a: &String, b: &str) -> (r: bool)
    ensures
        r == (a@ == b@),
{
    let x = chars_of(a.as_str());
    let y = chars_of(b);
    if x.len() != y.len() {
        return false;
    }
    let mut i: usize = 0;
    while i < x.len()
        invariant
            x@.len() == y@.len(),
            x@ == a@,
            y@ == b@,
            0 <= i <= x@.len(),
            forall|k: int| 0 <= k < i ==> x@[k] == y@[k],
        decreases x@.len() - i,
    {
        if x[i] != y[i] {
            assert(x@[i as int] != y@[i as int]);
            return false;
        }
        i = i + 1;
    }
    proof {
        assert(x@ =~= y@);
    }
    true
}

pub open spec fn packet_summaries(ps: Seq<PacketRecord>) -> Seq<Seq<char>> {
    ps.map_values(|p: PacketRecord| p.summary@)
}

pub open spec fn frame_summaries(fs: Seq<FrameRecord>) -> Seq<Seq<char>> {
    fs.map_values(|f: FrameRecord| f.summary@)
}

/// How often each packet summary occurs, in ascending order of summary.
pub fn tally_packet_summaries(packets: &[PacketRecord]) -> (r: Vec<(String, usize)>)
    ensures
        is_tally(tally_view(r@), packet_summaries(packets@)),
{
    let mut counts: Vec<(String, usize)> = Vec::new();
    let mut i: usize = 0;
    while i < packets.len()
        invariant
            0 <= i <= packets@.len(),
            is_tally(tally_view(counts@), packet_summaries(packets@).take(i as int)),
        decreases packets@.len() - i,
    {
        proof {
            assert(packet_summaries(packets@).take(i + 1) =~= packet_summaries(packets@).take(i as int).push(packets@[i as int].summary@));
        }
        tally_add(&mut counts, packets[i].summary.as_str(), Ghost(packet_summaries(packets@).take(i as int)));
        i = i + 1;
    }
    proof {
        assert(packet_summaries(packets@).take(packets@.len() as int) =~= packet_summaries(packets@));
    }
    counts
}

/// How often each frame summary occurs, in ascending order of summary.
pub fn tally_frame_summaries(frames: &[FrameRecord]) -> (r: Vec<(String, usize)>)
    ensures
        is_tally(tally_view(r@), frame_summaries(frames@)),
{
    let mut counts: Vec<(String, usize)> = Vec::new();
    let mut i: usize = 0;
    while i < frames.len()
        invariant
            0 <= i <= frames@.len(),
            is_tally(tally_view(counts@), frame_summaries(frames@).take(i as int)),
        decreases frames@.len() - i,
    {
        proof {
            assert(frame_summaries(frames@).take(i + 1) =~= frame_summaries(frames@).take(i as int).push(frames@[i as int].summary@));
        }
        tally_add(&mut counts, frames[i].summary.as_str(), Ghost(frame_summaries(frames@).take(i as int)));
        i = i + 1;
    }
    proof {
        assert(frame_summaries(frames@).take(frames@.len() as int) =~= frame_summaries(frames@));
    }
    counts
}

/// A candidate's grouping key: channel, phase, main type, sub type.
pub open spec fn cand_key(c: CandidateRecord) -> (u16, Seq<char>, u8, u8) {
    (c.channel_id, c.phase@, c.main_type, c.sub_type)
}

/// Keys ascend by channel, then phase, then main type, then sub type.
pub open spec fn key_lt(a: (u16, Seq<char>, u8, u8), b: (u16, Seq<char>, u8, u8)) -> bool {
    a.0 < b.0 || (a.0 == b.0 && (seq_lt(a.1, b.1) || (a.1 == b.1 && (a.2 < b.2 || (a.2 == b.2 && a.3 < b.3)))))
}

pub proof fn lemma_key_lt_order(a: (u16, Seq<char>, u8, u8), b: (u16, Seq<char>, u8, u8), c: (u16, Seq<char>, u8, u8))
    ensures
        !key_lt(a, a),
        a != b ==> (key_lt(a, b) || key_lt(b, a)),
        !(key_lt(a, b) && key_lt(b, a)),
        key_lt(a, b) && key_lt(b, c) ==> key_lt(a, c),
{
    lemma_seq_lt_order(a.1, b.1, c.1);
    lemma_seq_lt_order(b.1, a.1, c.1);
    lemma_seq_lt_order(a.1, a.1, a.1);
}

/// The candidates with key `k`, in order.
pub open spec fn with_key(cs: Seq<CandidateRecord>, k: (u16, Seq<char>, u8, u8)) -> Seq<CandidateRecord>
    decreases cs.len(),
{
    if cs.len() == 0 {
        Seq::empty()
    } else if cand_key(cs.last()) == k {
        with_key(cs.drop_last(), k).push(cs.last())
    } else {
        with_key(cs.drop_last(), k)
    }
}

/// How often `v` occurs in `vs`.
pub open spec fn count_value(vs: Seq<usize>, v: usize) -> nat
    decreases vs.len(),
{
    if vs.len() == 0 { 0 } else { count_value(vs.drop_last(), v) + if vs.last() == v { 1nat } else { 0nat } }
}

/// `h` tallies `vs` in ascending order of value.
pub open spec fn is_histogram(h: Seq<(usize, usize)>, vs: Seq<usize>) -> bool {
    &&& forall|i: int, j: int| 0 <= i < j < h.len() ==> #[trigger] h[i].0 < #[trigger] h[j].0
    &&& forall|i: int| 0 <= i < h.len() ==> #[trigger] h[i].1 == count_value(vs, h[i].0) && h[i].1 > 0
    &&& forall|k: int| 0 <= k < vs.len() ==> has_value(h, #[trigger] vs[k])
}

pub open spec fn has_value(h: Seq<(usize, usize)>, v: usize) -> bool {
    exists|i: int| 0 <= i < h.len() && #[trigger] h[i].0 == v
}

proof fn lemma_count_value_bound(vs: Seq<usize>, v: usize)
    ensures
        count_value(vs, v) <= vs.len(),
        count_value(vs, v) > 0 ==> exists|k: int| 0 <= k < vs.len() && vs[k] == v,
    decreases vs.len(),
{
    if vs.len() > 0 {
        lemma_count_value_bound(vs.drop_last(), v);
        if count_value(vs.drop_last(), v) > 0 {
            let k = choose|k: int| 0 <= k < vs.drop_last().len() && vs.drop_last()[k] == v;
            assert(vs[k] == v);
        }
        if vs.last() == v {
            assert(vs[vs.len() - 1] == v);
        }
    }
}

fn histogram_add(h: &mut Vec<(usize, usize)>, v: usize, Ghost(prefix): Ghost<Seq<usize>>)
    requires
        is_histogram(old(h)@, prefix),
        prefix.len() < usize::MAX,
    ensures
        is_histogram(final(h)@, prefix.push(v)),
{
    let ghost all = prefix.push(v);
    proof {
        assert(all.drop_last() =~= prefix);
        lemma_count_value_bound(prefix, v);
    }
    let mut i: usize = 0;
    while i < h.len() && h[i].0 < v
        invariant
            h@ == old(h)@,
            0 <= i <= h@.len(),
            forall|j: int| 0 <= j < i ==> #[trigger] h@[j].0 < v,
        decreases h@.len() - i,
    {
        i = i + 1;
    }
    let ghost hv = h@;
    if i < h.len() && h[i].0 == v {
        let n = h[i].1;
        assert(n == count_value(prefix, v));
        h[i] = (v, n + 1);
        proof {
            assert forall|k: int| 0 <= k < all.len() implies has_value(h@, #[trigger] all[k]) by {
                if k < prefix.len() {
                    assert(has_value(hv, prefix[k]));
                    let j = choose|j: int| 0 <= j < hv.len() && #[trigger] hv[j].0 == prefix[k];
                    assert(h@[j].0 == all[k]);
                } else {
                    assert(h@[i as int].0 == all[k]);
                }
            }
        }
    } else {
        h.insert(i, (v, 1));
        proof {
            assert(count_value(prefix, v) == 0) by {
                if count_value(prefix, v) > 0 {
                    let k = choose|k: int| 0 <= k < prefix.len() && prefix[k] == v;
                    assert(has_value(hv, prefix[k]));
                    let j = choose|j: int| 0 <= j < hv.len() && #[trigger] hv[j].0 == prefix[k];
                    if j < i {
                        assert(hv[j].0 < v);
                    } else if j > i {
                        assert(hv[i as int].0 < hv[j].0);
                    }
                }
            }
            assert forall|j: int| 0 <= j < h@.len() implies #[trigger] h@[j].1 == count_value(all, h@[j].0) && h@[j].1 > 0 by {
                if j < i {
                    assert(h@[j] == hv[j]);
                } else if j > i {
                    assert(h@[j] == hv[j - 1]);
                    if j - 1 > i {
                        assert(hv[i as int].0 < hv[j - 1].0);
                    }
                }
            }
            assert forall|a: int, b: int| 0 <= a < b < h@.len() implies #[trigger] h@[a].0 < #[trigger] h@[b].0 by {
                if b - 1 > i && a > i {
                    assert(hv[a - 1].0 < hv[b - 1].0);
                } else if b - 1 > i && a <= i {
                    assert(hv[i as int].0 <= hv[b - 1].0);
                    if a < i { assert(hv[a].0 < v); }
                } else if b - 1 == i as int {
                    if a < i { assert(hv[a].0 < v); }
                } else if b < i {
                    assert(hv[a].0 < hv[b].0);
                } else if b == i {
                    assert(hv[a].0 < v);
                }
            }
            assert forall|k: int| 0 <= k < all.len() implies has_value(h@, #[trigger] all[k]) by {
                if k < prefix.len() {
                    assert(has_value(hv, prefix[k]));
                    let j = choose|j: int| 0 <= j < hv.len() && #[trigger] hv[j].0 == prefix[k];
                    if j < i {
                        assert(h@[j].0 == all[k]);
                    } else {
                        assert(h@[j + 1].0 == all[k]);
                    }
                } else {
                    assert(h@[i as int].0 == all[k]);
                }
            }
        }
    }
}

/// The candidates of one channel, phase and message type: how many, how
/// often each payload length occurs (ascending), and the first payload.
pub struct CandidateGroup {
    pub channel_id: u16,
    pub phase: String,
    pub main_type: u8,
    pub sub_type: u8,
    pub count: usize,
    pub payload_lengths: Vec<(usize, usize)>,
    pub first_payload_hex: String,
}

pub open spec fn group_key(g: CandidateGroup) -> (u16, Seq<char>, u8, u8) {
    (g.channel_id, g.phase@, g.main_type, g.sub_type)
}

pub open spec fn payload_lens(cs: Seq<CandidateRecord>) -> Seq<usize> {
    cs.map_values(|c: CandidateRecord| c.payload_len)
}

/// `g` describes the candidates of its key in `cs`.
pub open spec fn group_of(g: CandidateGroup, cs: Seq<CandidateRecord>) -> bool {
    let sel = with_key(cs, group_key(g));
    &&& sel.len() > 0
    &&& g.count == sel.len()
    &&& g.first_payload_hex@ == sel[0].payload_hex@
    &&& is_histogram(g.payload_lengths@, payload_lens(sel))
}

pub open spec fn key_listed(gs: Seq<CandidateGroup>, k: (u16, Seq<char>, u8, u8)) -> bool {
    exists|i: int| 0 <= i < gs.len() && #[trigger] group_key(gs[i]) == k
}

/// `gs` groups `cs`: one group per key, in ascending key order.
pub open spec fn is_candidate_summary(gs: Seq<CandidateGroup>, cs: Seq<CandidateRecord>) -> bool {
    &&& forall|i: int, j: int| 0 <= i < j < gs.len() ==> key_lt(group_key(#[trigger] gs[i]), group_key(#[trigger] gs[j]))
    &&& forall|i: int| 0 <= i < gs.len() ==> group_of(#[trigger] gs[i], cs)
    &&& forall|k: int| 0 <= k < cs.len() ==> key_listed(gs, cand_key(#[trigger] cs[k]))
}

pub open spec fn key_view(k: (u16, String, u8, u8)) -> (u16, Seq<char>, u8, u8) {
    (k.0, k.1@, k.2, k.3)
}

pub open spec fn keys_view(ks: Seq<(u16, String, u8, u8)>) -> Seq<(u16, Seq<char>, u8, u8)> {
    ks.map_values(|k: (u16, String, u8, u8)| key_view(k))
}

pub open spec fn in_keys(ks: Seq<(u16, Seq<char>, u8, u8)>, k: (u16, Seq<char>, u8, u8)) -> bool {
    exists|i: int| 0 <= i < ks.len() && #[trigger] ks[i] == k
}

/// `ks` are the distinct keys of `cs`, ascending.
pub open spec fn is_key_set(ks: Seq<(u16, Seq<char>, u8, u8)>, cs: Seq<CandidateRecord>) -> bool {
    &&& forall|i: int, j: int| 0 <= i < j < ks.len() ==> key_lt(#[trigger] ks[i], #[trigger] ks[j])
    &&& forall|i: int| 0 <= i < ks.len() ==> with_key(cs, #[trigger] ks[i]).len() > 0
    &&& forall|k: int| 0 <= k < cs.len() ==> in_keys(ks, cand_key(#[trigger] cs[k]))
}

fn key_lt_exec(a: &(u16, String, u8, u8), b: &(u16, String, u8, u8)) -> (r: bool)
    ensures
        r == key_lt(key_view(*a), key_view(*b)),
{
    if a.0 != b.0 {
        return a.0 < b.0;
    }
    let x = chars_of(a.1.as_str());
    let y = chars_of(b.1.as_str());
    if text_lt(x.as_slice(), y.as_slice()) {
        return true;
    }
    if !text_eq(&a.1, b.1.as_str()) {
        return false;
    }
    a.2 < b.2 || (a.2 == b.2 && a.3 < b.3)
}

fn key_eq_exec(a: &(u16, String, u8, u8), b: &(u16, String, u8, u8)) -> (r: bool)
    ensures
        r == (key_view(*a) == key_view(*b)),
{
    a.0 == b.0 && a.2 == b.2 && a.3 == b.3 && text_eq(&a.1, b.1.as_str())
}

proof fn lemma_with_key_witness(cs: Seq<CandidateRecord>, k: (u16, Seq<char>, u8, u8))
    ensures
        with_key(cs, k).len() <= cs.len(),
        with_key(cs, k).len() > 0 ==> exists|j: int| 0 <= j < cs.len() && cand_key(cs[j]) == k,
        forall|j: int| 0 <= j < with_key(cs, k).len() ==> cand_key(#[trigger] with_key(cs, k)[j]) == k,
    decreases cs.len(),
{
    if cs.len() > 0 {
        lemma_with_key_witness(cs.drop_last(), k);
        if with_key(cs.drop_last(), k).len() > 0 {
            let j = choose|j: int| 0 <= j < cs.drop_last().len() && cand_key(cs.drop_last()[j]) == k;
            assert(cand_key(cs[j]) == k);
        }
        if cand_key(cs.last()) == k {
            assert(cand_key(cs[cs.len() - 1]) == k);
        }
    }
}

proof fn lemma_with_key_present(cs: Seq<CandidateRecord>, j: int)
    requires
        0 <= j < cs.len(),
    ensures
        with_key(cs, cand_key(cs[j])).len() > 0,
    decreases cs.len(),
{
    if j < cs.len() - 1 {
        lemma_with_key_present(cs.drop_last(), j);
        assert(cs.drop_last()[j] == cs[j]);
    }
}

fn key_insert(keys: &mut Vec<(u16, String, u8, u8)>, c: &CandidateRecord, Ghost(prefix): Ghost<Seq<CandidateRecord>>)
    requires
        is_key_set(keys_view(old(keys)@), prefix),
    ensures
        is_key_set(keys_view(final(keys)@), prefix.push(*c)),
{
    let k = (c.channel_id, c.phase.clone(), c.main_type, c.sub_type);
    let ghost kv = key_view(k);
    let ghost all = prefix.push(*c);
    proof {
        assert(kv == cand_key(*c));
        assert(all.drop_last() =~= prefix);
        assert forall|key: (u16, Seq<char>, u8, u8)| with_key(prefix, key).len() > 0 implies #[trigger] with_key(all, key).len() > 0 by {
        }
        lemma_with_key_present(all, all.len() - 1);
        assert(all[all.len() - 1] == *c);
    }
    let mut i: usize = 0;
    while i < keys.len()
        invariant
            keys@ == old(keys)@,
            is_key_set(keys_view(keys@), prefix),
            kv == key_view(k),
            0 <= i <= keys@.len(),
            forall|j: int| 0 <= j < i ==> key_lt(#[trigger] keys_view(keys@)[j], kv),
        ensures
            keys@ == old(keys)@,
            0 <= i <= keys@.len(),
            forall|j: int| 0 <= j < i ==> key_lt(#[trigger] keys_view(keys@)[j], kv),
            i < keys@.len() ==> !key_lt(keys_view(keys@)[i as int], kv),
        decreases keys@.len() - i,
    {
        if !key_lt_exec(&keys[i], &k) {
            break;
        }
        i = i + 1;
    }
    let ghost kvs = keys_view(keys@);
    if i < keys.len() && key_eq_exec(&keys[i], &k) {
        proof {
            assert(kvs[i as int] == kv);
            assert forall|t: int| 0 <= t < all.len() implies in_keys(kvs, cand_key(#[trigger] all[t])) by {
                if t < prefix.len() {
                    assert(all[t] == prefix[t]);
                } else {
                    assert(kvs[i as int] == cand_key(all[t]));
                }
            }
        }
    } else {
        keys.insert(i, k);
        proof {
            let nv = keys_view(keys@);
            assert(nv =~= kvs.insert(i as int, kv));
            if i < kvs.len() {
                lemma_key_lt_order(kv, kvs[i as int], kvs[i as int]);
            }
            assert forall|a: int, b: int| 0 <= a < b < nv.len() implies key_lt(#[trigger] nv[a], #[trigger] nv[b]) by {
                if b < i {
                } else if a < i && b == i {
                } else if a < i && b > i {
                    lemma_key_lt_order(kvs[a], kv, kvs[b - 1]);
                    if b - 1 > i {
                        lemma_key_lt_order(kv, kvs[i as int], kvs[b - 1]);
                    }
                } else if a == i {
                    if b - 1 > i {
                        lemma_key_lt_order(kv, kvs[i as int], kvs[b - 1]);
                    }
                }
            }
            assert forall|j: int| 0 <= j < nv.len() implies with_key(all, #[trigger] nv[j]).len() > 0 by {
                if j < i {
                    assert(nv[j] == kvs[j]);
                } else if j > i {
                    assert(nv[j] == kvs[j - 1]);
                }
            }
            assert forall|t: int| 0 <= t < all.len() implies in_keys(nv, cand_key(#[trigger] all[t])) by {
                if t < prefix.len() {
                    assert(all[t] == prefix[t]);
                    assert(in_keys(kvs, cand_key(prefix[t])));
                    let j = choose|j: int| 0 <= j < kvs.len() && #[trigger] kvs[j] == cand_key(prefix[t]);
                    if j < i {
                        assert(nv[j] == kvs[j]);
                    } else {
                        assert(nv[j + 1] == kvs[j]);
                    }
                } else {
                    assert(nv[i as int] == cand_key(all[t]));
                }
            }
        }
    }
}

fn candidate_key_matches(c: &CandidateRecord, k: &(u16, String, u8, u8)) -> (r: bool)
    ensures
        r == (cand_key(*c) == key_view(*k)),
{
    c.channel_id == k.0 && c.main_type == k.2 && c.sub_type == k.3 && text_eq(&c.phase, k.1.as_str())
}

fn group_for(cs: &[CandidateRecord], key: &(u16, String, u8, u8)) -> (g: CandidateGroup)
    requires
        with_key(cs@, key_view(*key)).len() > 0,
    ensures
        group_key(g) == key_view(*key),
        group_of(g, cs@),
{
    let ghost kv = key_view(*key);
    let mut count: usize = 0;
    let mut first: Option<String> = None;
    let mut h: Vec<(usize, usize)> = Vec::new();
    let mut j: usize = 0;
    while j < cs.len()
        invariant
            kv == key_view(*key),
            0 <= j <= cs@.len(),
            count == with_key(cs@.take(j as int), kv).len(),
            with_key(cs@.take(j as int), kv).len() > 0 ==> (first matches Some(f) && f@ == with_key(cs@.take(j as int), kv)[0].payload_hex@),
            with_key(cs@.take(j as int), kv).len() == 0 ==> first is None,
            is_histogram(h@, payload_lens(with_key(cs@.take(j as int), kv))),
        decreases cs@.len() - j,
    {
        let ghost before = with_key(cs@.take(j as int), kv);
        proof {
            assert(cs@.take(j + 1).drop_last() =~= cs@.take(j as int));
            assert(cs@.take(j + 1).last() == cs@[j as int]);
            lemma_with_key_witness(cs@.take(j as int), kv);
        }
        if candidate_key_matches(&cs[j], key) {
            proof {
                assert(with_key(cs@.take(j + 1), kv) == before.push(cs@[j as int]));
                assert(payload_lens(before.push(cs@[j as int])) =~= payload_lens(before).push(cs@[j as int].payload_len));
            }
            histogram_add(&mut h, cs[j].payload_len, Ghost(payload_lens(before)));
            count = count + 1;
            if first.is_none() {
                first = Some(cs[j].payload_hex.clone());
            }
        } else {
            proof {
                assert(with_key(cs@.take(j + 1), kv) == before);
            }
        }
        j = j + 1;
    }
    proof {
        assert(cs@.take(cs@.len() as int) =~= cs@);
    }
    let first_payload_hex = match first {
        Some(f) => f,
        None => String::new(),
    };
    CandidateGroup {
        channel_id: key.0,
        phase: key.1.clone(),
        main_type: key.2,
        sub_type: key.3,
        count,
        payload_lengths: h,
        first_payload_hex,
    }
}

/// Groups the candidates by channel, phase, main and sub type, in
/// ascending key order (the phase compared as text).
pub fn summarize_candidates(candidates: &[CandidateRecord]) -> (r: Vec<CandidateGroup>)
    ensures
        is_candidate_summary(r@, candidates@),
{
    let mut keys: Vec<(u16, String, u8, u8)> = Vec::new();
    let mut i: usize = 0;
    while i < candidates.len()
        invariant
            0 <= i <= candidates@.len(),
            is_key_set(keys_view(keys@), candidates@.take(i as int)),
        decreases candidates@.len() - i,
    {
        proof {
            assert(candidates@.take(i + 1) =~= candidates@.take(i as int).push(candidates@[i as int]));
        }
        key_insert(&mut keys, &candidates[i], Ghost(candidates@.take(i as int)));
        i = i + 1;
    }
    proof {
        assert(candidates@.take(candidates@.len() as int) =~= candidates@);
    }
    let ghost kvs = keys_view(keys@);
    let mut groups: Vec<CandidateGroup> = Vec::new();
    let mut k: usize = 0;
    while k < keys.len()
        invariant
            kvs == keys_view(keys@),
            is_key_set(kvs, candidates@),
            0 <= k <= keys@.len(),
            groups@.len() == k,
            forall|t: int| 0 <= t < k ==> group_key(#[trigger] groups@[t]) == kvs[t] && group_of(groups@[t], candidates@),
        decreases keys@.len() - k,
    {
        proof {
            assert(kvs[k as int] == key_view(keys@[k as int]));
        }
        let g = group_for(candidates, &keys[k]);
        groups.push(g);
        k = k + 1;
    }
    proof {
        let gs = groups@;
        assert forall|a: int, b: int| 0 <= a < b < gs.len() implies key_lt(group_key(#[trigger] gs[a]), group_key(#[trigger] gs[b])) by {
            assert(key_lt(kvs[a], kvs[b]));
        }
        assert forall|t: int| 0 <= t < candidates@.len() implies key_listed(gs, cand_key(#[trigger] candidates@[t])) by {
            assert(in_keys(kvs, cand_key(candidates@[t])));
            let j = choose|j: int| 0 <= j < kvs.len() && #[trigger] kvs[j] == cand_key(candidates@[t]);
            assert(group_key(gs[j]) == kvs[j]);
        }
    }
    groups
}

/// The packets that answered the previous send.
pub open spec fn mirrored_packets(ps: Seq<PacketRecord>) -> nat
    decreases ps.len(),
{
    if ps.len() == 0 { 0 } else { mirrored_packets(ps.drop_last()) + if ps.last().mirrored_prev_send { 1nat } else { 0nat } }
}

/// The number of packets that answered the previous send.
pub fn count_mirrored_packets(packets: &[PacketRecord]) -> (n: usize)
    ensures
        n == mirrored_packets(packets@),
{
    let mut n: usize = 0;
    let mut i: usize = 0;
    while i < packets.len()
        invariant
            0 <= i <= packets@.len(),
            n == mirrored_packets(packets@.take(i as int)),
            n <= i,
        decreases packets@.len() - i,
    {
        proof {
            assert(packets@.take(i + 1).drop_last() =~= packets@.take(i as int));
        }
        if packets[i].mirrored_prev_send {
            n = n + 1;
        }
        i = i + 1;
    }
    proof {
        assert(packets@.take(packets@.len() as int) =~= packets@);
    }
    n
}

/// The sum of the counts of a tally.
pub open spec fn sum_counts(c: Seq<(Seq<char>, nat)>) -> nat
    decreases c.len(),
{
    if c.len() == 0 { 0 } else { sum_counts(c.drop_last()) + c.last().1 }
}

/// The occurrences in `ts` of each text of `c`, added up.
pub open spec fn occurrence_sum(c: Seq<(Seq<char>, nat)>, ts: Seq<Seq<char>>) -> nat
    decreases c.len(),
{
    if c.len() == 0 { 0 } else { occurrence_sum(c.drop_last(), ts) + occurrences(ts, c.last().0) }
}

/// How many texts of `c` equal `x`.
pub open spec fn matches_of(c: Seq<(Seq<char>, nat)>, x: Seq<char>) -> nat
    decreases c.len(),
{
    if c.len() == 0 { 0 } else { matches_of(c.drop_last(), x) + if c.last().0 == x { 1nat } else { 0nat } }
}

proof fn lemma_matches_of_distinct(c: Seq<(Seq<char>, nat)>, x: Seq<char>)
    requires
        forall|i: int, j: int| 0 <= i < j < c.len() ==> #[trigger] c[i].0 != #[trigger] c[j].0,
    ensures
        matches_of(c, x) == if listed(c, x) { 1nat } else { 0nat },
    decreases c.len(),
{
    if c.len() > 0 {
        let p = c.drop_last();
        assert forall|i: int, j: int| 0 <= i < j < p.len() implies #[trigger] p[i].0 != #[trigger] p[j].0 by {
            assert(p[i] == c[i] && p[j] == c[j]);
        }
        lemma_matches_of_distinct(p, x);
        if listed(p, x) {
            let i = choose|i: int| 0 <= i < p.len() && #[trigger] p[i].0 == x;
            assert(c[i] == p[i]);
            assert(listed(c, x));
            assert(c.last().0 != x) by {
                assert(c[i].0 != c[c.len() - 1].0);
            }
        } else if c.last().0 == x {
            assert(c[c.len() - 1].0 == x);
        } else {
            if listed(c, x) {
                let i = choose|i: int| 0 <= i < c.len() && #[trigger] c[i].0 == x;
                if i < c.len() - 1 {
                    assert(p[i] == c[i]);
                }
            }
        }
    }
}

proof fn lemma_occurrence_sum_push(c: Seq<(Seq<char>, nat)>, ts: Seq<Seq<char>>, x: Seq<char>)
    ensures
        occurrence_sum(c, ts.push(x)) == occurrence_sum(c, ts) + matches_of(c, x),
    decreases c.len(),
{
    if c.len() > 0 {
        lemma_occurrence_sum_push(c.drop_last(), ts, x);
        assert(ts.push(x).drop_last() =~= ts);
    }
}

proof fn lemma_occurrence_sum_total(c: Seq<(Seq<char>, nat)>, ts: Seq<Seq<char>>)
    requires
        forall|i: int, j: int| 0 <= i < j < c.len() ==> #[trigger] c[i].0 != #[trigger] c[j].0,
        forall|k: int| 0 <= k < ts.len() ==> listed(c, #[trigger] ts[k]),
    ensures
        occurrence_sum(c, ts) == ts.len(),
    decreases ts.len(),
{
    if ts.len() == 0 {
        lemma_occurrence_sum_empty(c, ts);
    } else {
        let p = ts.drop_last();
        assert forall|k: int| 0 <= k < p.len() implies listed(c, #[trigger] p[k]) by {
            assert(p[k] == ts[k]);
        }
        lemma_occurrence_sum_total(c, p);
        assert(p.push(ts.last()) =~= ts);
        lemma_occurrence_sum_push(c, p, ts.last());
        assert(listed(c, ts[ts.len() - 1]));
        lemma_matches_of_distinct(c, ts.last());
    }
}

proof fn lemma_occurrence_sum_empty(c: Seq<(Seq<char>, nat)>, ts: Seq<Seq<char>>)
    requires
        ts.len() == 0,
    ensures
        occurrence_sum(c, ts) == 0,
    decreases c.len(),
{
    if c.len() > 0 {
        lemma_occurrence_sum_empty(c.drop_last(), ts);
    }
}

proof fn lemma_sum_counts_is_occurrence_sum(c: Seq<(Seq<char>, nat)>, ts: Seq<Seq<char>>)
    requires
        forall|i: int| 0 <= i < c.len() ==> #[trigger] c[i].1 == occurrences(ts, c[i].0),
    ensures
        sum_counts(c) == occurrence_sum(c, ts),
    decreases c.len(),
{
    if c.len() > 0 {
        let p = c.drop_last();
        assert forall|i: int| 0 <= i < p.len() implies #[trigger] p[i].1 == occurrences(ts, p[i].0) by {
            assert(p[i] == c[i]);
        }
        lemma_sum_counts_is_occurrence_sum(p, ts);
        assert(c[c.len() - 1].1 == occurrences(ts, c[c.len() - 1].0));
    }
}

/// Every text is counted exactly once: the counts of a tally add up to the
/// number of texts tallied.
pub proof fn lemma_tally_total(counts: Seq<(Seq<char>, nat)>, ts: Seq<Seq<char>>)
    requires
        is_tally(counts, ts),
    ensures
        sum_counts(counts) == ts.len(),
{
    assert forall|i: int, j: int| 0 <= i < j < counts.len() implies #[trigger] counts[i].0 != #[trigger] counts[j].0 by {
        assert(seq_lt(counts[i].0, counts[j].0));
        lemma_seq_lt_order(counts[i].0, counts[j].0, counts[j].0);
    }
    lemma_sum_counts_is_occurrence_sum(counts, ts);
    lemma_occurrence_sum_total(counts, ts);
}

} // verus!
