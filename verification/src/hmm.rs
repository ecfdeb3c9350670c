//! Hidden Markov segmentation of out-of-vocabulary runs.
//!
//! Characters are tagged with one of four states: `B` begins a word, `M`
//! continues one, `E` ends one, and `S` is a single-character word. Viterbi
//! decoding over fixed log-probability tables picks the best state path;
//! a word is closed at every `E` or `S`.
//!
//! All log-probabilities are integers in millionths of a nat. Transitions
//! that the state topology forbids carry `FORBIDDEN`, low enough that a
//! forbidden step never beats a legal path.
//!
//! The built-in tables are a compact set: a handful of very common
//! function-word characters carry their own emission weights and every
//! other character shares a uniform floor. Decoders shipping large
//! per-character emission tables may therefore split unknown runs
//! differently.

use crate::text::char_count;
use crate::text::concat_all;
use crate::text::copy_range;
use crate::text::cp_at;
use crate::text::next_boundary;
use crate::text::spec_next_boundary;
use vstd::prelude::*;
use vstd::utf8::*;

verus! {

/// A hidden state of the character tagger.
#[derive(Clone, Copy, Debug, PartialEq, Eq, Structural)]
pub enum Status {
    B,
    M,
    E,
    S,
}

pub const FORBIDDEN: i64 = -1000000000000000;

/// Log-probability of starting a run in a state. Words cannot start in the
/// middle or at the end of a word.
pub open spec fn spec_init_lp(st: Status) -> int {
    match st {
        Status::B => -263000,
        Status::M => FORBIDDEN as int,
        Status::E => FORBIDDEN as int,
        Status::S => -1465000,
    }
}

fn init_lp(st: Status) -> (r: i64)
    ensures
        r == spec_init_lp(st),
{
    match st {
        Status::B => -263000,
        Status::M => FORBIDDEN,
        Status::E => FORBIDDEN,
        Status::S => -1465000,
    }
}

/// Log-probability of moving from one state to the next. A word begun must
/// be continued or ended; a finished word is followed by a new one.
pub open spec fn spec_trans_lp(a: Status, b: Status) -> int {
    match (a, b) {
        (Status::B, Status::M) => -710000,
        (Status::B, Status::E) => -677000,
        (Status::M, Status::M) => -820000,
        (Status::M, Status::E) => -580000,
        (Status::E, Status::B) => -429000,
        (Status::E, Status::S) => -1053000,
        (Status::S, Status::B) => -660000,
        (Status::S, Status::S) => -727000,
        _ => FORBIDDEN as int,
    }
}

fn trans_lp(a: Status, b: Status) -> (r: i64)
    ensures
        r == spec_trans_lp(a, b),
{
    match (a, b) {
        (Status::B, Status::M) => -710000,
        (Status::B, Status::E) => -677000,
        (Status::M, Status::M) => -820000,
        (Status::M, Status::E) => -580000,
        (Status::E, Status::B) => -429000,
        (Status::E, Status::S) => -1053000,
        (Status::S, Status::B) => -660000,
        (Status::S, Status::S) => -727000,
        _ => FORBIDDEN,
    }
}

/// Log-probability of a state emitting a character. A few very common
/// function words lean strongly towards standing alone; every other
/// character uses a uniform floor, which cancels between candidate paths.
pub open spec fn spec_emit_lp(st: Status, cp: u32) -> int {
    if cp == 0x7684 || cp == 0x4E86 || cp == 0x662F || cp == 0x5728 || cp == 0x6211 || cp
        == 0x5C31 || cp == 0x4E0D || cp == 0x548C {
        match st {
            Status::S => if cp == 0x4E86 {
                -2700000
            } else {
                -2200000
            },
            _ => -9000000,
        }
    } else {
        -30000000
    }
}

fn emit_lp(st: Status, cp: u32) -> (r: i64)
    ensures
        r == spec_emit_lp(st, cp),
{
    if cp == 0x7684 || cp == 0x4E86 || cp == 0x662F || cp == 0x5728 || cp == 0x6211 || cp
        == 0x5C31 || cp == 0x4E0D || cp == 0x548C {
        match st {
            Status::S => if cp == 0x4E86 {
                -2700000
            } else {
                -2200000
            },
            _ => -9000000,
        }
    } else {
        -30000000
    }
}

pub open spec fn max2(x: int, y: int) -> int {
    if y > x {
        y
    } else {
        x
    }
}

/// The best value reachable in state `st` at character `t`.
pub open spec fn vit_val(cps: Seq<u32>, t: int, st: Status) -> int
    decreases t,
{
    if t <= 0 {
        spec_init_lp(st) + spec_emit_lp(st, cps[0])
    } else {
        let vb = vit_val(cps, t - 1, Status::B) + spec_trans_lp(Status::B, st);
        let vm = vit_val(cps, t - 1, Status::M) + spec_trans_lp(Status::M, st);
        let ve = vit_val(cps, t - 1, Status::E) + spec_trans_lp(Status::E, st);
        let vs = vit_val(cps, t - 1, Status::S) + spec_trans_lp(Status::S, st);
        max2(max2(vb, vm), max2(ve, vs)) + spec_emit_lp(st, cps[t])
    }
}

/// The predecessor recorded for state `st` at character `t`: the first
/// state, in the order B, M, E, S, whose value reaches the maximum.
pub open spec fn best_prev(cps: Seq<u32>, t: int, st: Status) -> Status {
    let vb = vit_val(cps, t - 1, Status::B) + spec_trans_lp(Status::B, st);
    let vm = vit_val(cps, t - 1, Status::M) + spec_trans_lp(Status::M, st);
    let ve = vit_val(cps, t - 1, Status::E) + spec_trans_lp(Status::E, st);
    let vs = vit_val(cps, t - 1, Status::S) + spec_trans_lp(Status::S, st);
    let m = max2(max2(vb, vm), max2(ve, vs));
    if vb == m {
        Status::B
    } else if vm == m {
        Status::M
    } else if ve == m {
        Status::E
    } else {
        Status::S
    }
}

/// The state of the last character: a word either ends or stands alone.
pub open spec fn final_state(cps: Seq<u32>) -> Status {
    if vit_val(cps, cps.len() - 1, Status::E) >= vit_val(cps, cps.len() - 1, Status::S) {
        Status::E
    } else {
        Status::S
    }
}

/// The decoded state of character `t`, read back from the final state.
pub open spec fn path_at(cps: Seq<u32>, t: int) -> Status
    decreases cps.len() - t
        when t < cps.len()
{
    if t >= cps.len() - 1 {
        final_state(cps)
    } else {
        best_prev(cps, t + 1, path_at(cps, t + 1))
    }
}

/// Byte offsets that start a character in `s[i..]`, plus the end of `s`.
pub open spec fn offs_list(s: Seq<u8>, i: int) -> Seq<int>
    decreases s.len() - i,
{
    if i < 0 || i >= s.len() {
        seq![s.len() as int]
    } else if !is_continuation_byte(s[i]) {
        seq![i] + offs_list(s, i + 1)
    } else {
        offs_list(s, i + 1)
    }
}

pub proof fn lemma_offs_list_len(s: Seq<u8>, i: int)
    requires
        0 <= i <= s.len(),
    ensures
        offs_list(s, i).len() == char_count(s.subrange(i, s.len() as int)) + 1,
        offs_list(s, i).len() >= 1,
        offs_list(s, i).last() == s.len() as int,
        offs_list(s, i).first() >= i,
        forall|k: int|
            0 <= k < offs_list(s, i).len() - 1 ==> i <= #[trigger] offs_list(s, i)[k] < s.len()
                && !is_continuation_byte(s[offs_list(s, i)[k]]),
        forall|k1: int, k2: int|
            0 <= k1 < k2 < offs_list(s, i).len() ==> #[trigger] offs_list(s, i)[k1]
                < #[trigger] offs_list(s, i)[k2],
    decreases s.len() - i,
{
    let sub = s.subrange(i, s.len() as int);
    if i >= s.len() {
        assert(sub.len() == 0);
    } else {
        lemma_offs_list_len(s, i + 1);
        let sub1 = s.subrange(i + 1, s.len() as int);
        assert(sub1 =~= sub.subrange(1, sub.len() as int));
        crate::text::lemma_char_count_concat(
            sub.subrange(0, 1),
            sub.subrange(1, sub.len() as int),
        );
        assert(sub =~= sub.subrange(0, 1) + sub.subrange(1, sub.len() as int));
        assert(char_count(sub.subrange(0, 1)) == if is_continuation_byte(s[i]) {
            0nat
        } else {
            1nat
        }) by {
            assert(sub.subrange(0, 1).drop_last() =~= Seq::<u8>::empty());
            assert(sub.subrange(0, 1).last() == s[i]);
            assert(char_count(Seq::<u8>::empty()) == 0);
            assert(sub.subrange(0, 1).len() == 1);
        }
    }
}

/// Stepping from one character-start offset to the next.
pub proof fn lemma_offs_list_step(s: Seq<u8>, i: int, j: int)
    requires
        0 <= i <= j <= s.len(),
        forall|k: int| i < k < j ==> is_continuation_byte(#[trigger] s[k]),
        i < s.len() ==> !is_continuation_byte(s[i]),
        j < s.len() ==> !is_continuation_byte(s[j]),
        i < j,
    ensures
        i < s.len() ==> offs_list(s, i) == seq![i] + offs_list(s, j),
    decreases j - i,
{
    if i < s.len() {
        if i + 1 == j {
        } else {
            lemma_offs_list_skip(s, i + 1, j);
        }
    }
}

pub proof fn lemma_offs_list_skip(s: Seq<u8>, i: int, j: int)
    requires
        0 <= i <= j <= s.len(),
        forall|k: int| i <= k < j ==> is_continuation_byte(#[trigger] s[k]),
    ensures
        offs_list(s, i) == offs_list(s, j),
    decreases j - i,
{
    if i < j {
        lemma_offs_list_skip(s, i + 1, j);
    }
}

/// The words the decoded path spells out: `[seg, t)` is the open segment.
pub open spec fn emit_words(s: Seq<u8>, offs: Seq<int>, path: Seq<Status>, t: int, seg: int) -> Seq<
    Seq<u8>,
>
    decreases path.len() - t
        when t <= path.len()
{
    if t >= path.len() {
        if seg < path.len() {
            seq![s.subrange(offs[seg], offs[path.len() as int])]
        } else {
            Seq::empty()
        }
    } else if path[t] == Status::E || path[t] == Status::S {
        seq![s.subrange(offs[seg], offs[t + 1])] + emit_words(s, offs, path, t + 1, t + 1)
    } else {
        emit_words(s, offs, path, t + 1, seg)
    }
}

/// The character scalars of `s`, one per starting offset.
pub open spec fn spec_cps(s: Seq<u8>) -> Seq<u32> {
    let offs = offs_list(s, 0);
    Seq::new((offs.len() - 1) as nat, |t: int| decode_first_scalar(s.subrange(offs[t], s.len() as int)))
}

/// The segmentation the tagger gives an out-of-vocabulary run.
pub open spec fn spec_hmm_cut(s: Seq<u8>) -> Seq<Seq<u8>> {
    let offs = offs_list(s, 0);
    let cps = spec_cps(s);
    let path = Seq::new(cps.len(), |t: int| path_at(cps, t));
    emit_words(s, offs, path, 0, 0)
}

pub proof fn lemma_vit_val_bound(cps: Seq<u32>, t: int, st: Status)
    requires
        0 <= t,
    ensures
        -2000000000000000 * (t + 1) <= vit_val(cps, t, st) <= 0,
    decreases t,
{
    if t > 0 {
        lemma_vit_val_bound(cps, t - 1, Status::B);
        lemma_vit_val_bound(cps, t - 1, Status::M);
        lemma_vit_val_bound(cps, t - 1, Status::E);
        lemma_vit_val_bound(cps, t - 1, Status::S);
    }
}

/// The largest of four candidate values and the first state, in the order
/// B, M, E, S, that attains it.
fn max4(vb: i128, vm: i128, ve: i128, vs: i128) -> (r: (i128, Status))
    ensures
        r.0 == max2(max2(vb as int, vm as int), max2(ve as int, vs as int)),
        r.1 == (if vb == r.0 {
            Status::B
        } else if vm == r.0 {
            Status::M
        } else if ve == r.0 {
            Status::E
        } else {
            Status::S
        }),
{
    let mut best: i128 = vb;
    let mut arg = Status::B;
    if vm > best {
        best = vm;
        arg = Status::M;
    }
    if ve > best {
        best = ve;
        arg = Status::E;
    }
    if vs > best {
        best = vs;
        arg = Status::S;
    }
    (best, arg)
}

/// How the words of the decoded path concatenate back to the run.
pub proof fn lemma_emit_words_concat(
    s: Seq<u8>,
    offs: Seq<int>,
    path: Seq<Status>,
    t: int,
    seg: int,
)
    requires
        offs.len() == path.len() + 1,
        0 <= seg <= t <= path.len(),
        offs[path.len() as int] == s.len(),
        forall|k1: int, k2: int| 0 <= k1 < k2 < offs.len() ==> offs[k1] < offs[k2],
        forall|k: int| 0 <= k < offs.len() ==> 0 <= #[trigger] offs[k] <= s.len(),
    ensures
        concat_all(emit_words(s, offs, path, t, seg)) == s.subrange(offs[seg], s.len() as int),
        forall|k: int|
            0 <= k < emit_words(s, offs, path, t, seg).len() ==> (#[trigger] emit_words(
                s,
                offs,
                path,
                t,
                seg,
            )[k]).len() > 0,
    decreases path.len() - t,
{
    let n = path.len() as int;
    if t >= n {
        if seg < n {
            let w = s.subrange(offs[seg], offs[n]);
            assert(seq![w].drop_last() =~= Seq::<Seq<u8>>::empty());
            assert(seq![w].last() == w);
            assert(concat_all(seq![w]) == concat_all(Seq::<Seq<u8>>::empty()) + w);
            assert(concat_all(Seq::<Seq<u8>>::empty()) + w =~= w);
            assert(seq![w][0] == w);
        } else {
            assert(seg == n);
            assert(s.subrange(offs[seg], s.len() as int) =~= Seq::<u8>::empty());
        }
    } else if path[t] == Status::E || path[t] == Status::S {
        lemma_emit_words_concat(s, offs, path, t + 1, t + 1);
        let w = s.subrange(offs[seg], offs[t + 1]);
        let rest = emit_words(s, offs, path, t + 1, t + 1);
        assert(concat_all(seq![w] + rest) == concat_all(seq![w]) + concat_all(rest)) by {
            crate::text::lemma_concat_all_add(seq![w], rest);
        }
        assert(concat_all(seq![w]) =~= w) by {
            assert(seq![w].drop_last() =~= Seq::<Seq<u8>>::empty());
            assert(seq![w].last() == w);
            assert(concat_all(seq![w]) == concat_all(Seq::<Seq<u8>>::empty()) + w);
            assert(concat_all(Seq::<Seq<u8>>::empty()) + w =~= w);
        }
        assert(w + s.subrange(offs[t + 1], s.len() as int) =~= s.subrange(
            offs[seg],
            s.len() as int,
        ));
        assert(forall|k: int|
            0 <= k < (seq![w] + rest).len() ==> (#[trigger] (seq![w] + rest)[k]).len() > 0);
    } else {
        lemma_emit_words_concat(s, offs, path, t + 1, seg);
    }
}

/// Decodes a run into character scalars and their starting byte offsets.
pub(crate) fn decode_run(run: &Vec<u8>) -> (r: (Vec<usize>, Vec<u32>))
    requires
        valid_utf8(run@),
        run@.len() > 0,
    ensures
        r.0@.map_values(|x: usize| x as int) == offs_list(run@, 0),
        r.1@ == spec_cps(run@),
        r.0@.len() == r.1@.len() + 1,
        r.1@.len() >= 1,
        forall|k: int| 0 <= k < r.0@.len() ==> #[trigger] r.0@[k] <= run@.len(),
{
    broadcast use vstd::utf8::group_utf8_lib;

    let n = run.len();
    let ghost full = offs_list(run@, 0);
    proof {
        lemma_offs_list_len(run@, 0);
        assert(run@.subrange(0, n as int) =~= run@);
    }
    let mut offs: Vec<usize> = Vec::new();
    let mut cps: Vec<u32> = Vec::new();
    let mut i: usize = 0;
    proof {
        assert(is_char_boundary(run@, 0));
        vstd::utf8::is_char_boundary_iff_not_is_continuation_byte(run@, 0);
    }
    while i < n
        invariant
            valid_utf8(run@),
            n == run@.len(),
            0 <= i <= n,
            full == offs_list(run@, 0),
            i < n ==> !is_continuation_byte(run@[i as int]),
            i < n ==> is_char_boundary(run@, i as int),
            full == offs@.map_values(|x: usize| x as int) + offs_list(run@, i as int),
            cps@.len() == offs@.len(),
            forall|k: int| 0 <= k < offs@.len() ==> #[trigger] offs@[k] <= n,
            forall|k: int|
                0 <= k < offs@.len() ==> #[trigger] cps@[k] == decode_first_scalar(
                    run@.subrange(offs@[k] as int, n as int),
                ),
        decreases n - i,
    {
        let cp = cp_at(run, i);
        offs.push(i);
        cps.push(cp);
        let j = next_boundary(run, i);
        proof {
            crate::text::lemma_next_boundary(run@, i as int);
            if j < n {
                vstd::utf8::is_char_boundary_iff_not_is_continuation_byte(run@, j as int);
            }
            lemma_offs_list_step(run@, i as int, j as int);
            let m0 = offs@.drop_last().map_values(|x: usize| x as int);
            assert(offs@.map_values(|x: usize| x as int) =~= m0.push(i as int));
            assert(m0 + (seq![i as int] + offs_list(run@, j as int)) =~= m0.push(i as int)
                + offs_list(run@, j as int));
        }
        i = j;
    }
    offs.push(n);
    proof {
        let m0 = offs@.drop_last().map_values(|x: usize| x as int);
        assert(offs@.map_values(|x: usize| x as int) =~= m0.push(n as int));
        assert(offs_list(run@, n as int) == seq![n as int]);
        assert(m0 + seq![n as int] =~= m0.push(n as int));
        assert(full == offs@.map_values(|x: usize| x as int));
        assert(cps@ =~= spec_cps(run@)) by {
            assert(full.len() - 1 == cps@.len());
            assert(forall|k: int|
                0 <= k < cps@.len() ==> #[trigger] full[k] == offs@.map_values(
                    |x: usize| x as int,
                )[k]);
        }
        assert(cps@.len() >= 1) by {
            assert(full[0] == 0 && full.last() == n as int && n > 0);
            if full.len() < 2 {
                assert(full[0] == full.last());
            }
        }
    }
    (offs, cps)
}

/// Runs the forward pass and backtrace; returns the decoded state path
/// with the last character's state first.
#[verifier::rlimit(100)]
fn decode_path(cps: &Vec<u32>) -> (rev: Vec<Status>)
    requires
        cps@.len() >= 1,
    ensures
        rev@.len() == cps@.len(),
        forall|k: int|
            0 <= k < rev@.len() ==> #[trigger] rev@[k] == path_at(cps@, cps@.len() - 1 - k),
{
    let ghost gcps = cps@;
    let c = cps.len();
    let mut vb: Vec<i128> = Vec::new();
    let mut vm: Vec<i128> = Vec::new();
    let mut ve: Vec<i128> = Vec::new();
    let mut vs: Vec<i128> = Vec::new();
    let mut pb: Vec<Status> = Vec::new();
    let mut pm: Vec<Status> = Vec::new();
    let mut pe: Vec<Status> = Vec::new();
    let mut ps: Vec<Status> = Vec::new();
    vb.push((init_lp(Status::B) as i128) + (emit_lp(Status::B, cps[0]) as i128));
    vm.push((init_lp(Status::M) as i128) + (emit_lp(Status::M, cps[0]) as i128));
    ve.push((init_lp(Status::E) as i128) + (emit_lp(Status::E, cps[0]) as i128));
    vs.push((init_lp(Status::S) as i128) + (emit_lp(Status::S, cps[0]) as i128));
    pb.push(Status::B);
    pm.push(Status::B);
    pe.push(Status::B);
    ps.push(Status::B);
    let mut t: usize = 1;
    while t < c
        invariant
            1 <= t <= c == gcps.len(),
            cps@ == gcps,
            c == cps@.len(),
            vb@.len() == t && vm@.len() == t && ve@.len() == t && vs@.len() == t,
            pb@.len() == t && pm@.len() == t && pe@.len() == t && ps@.len() == t,
            forall|k: int| 0 <= k < t ==> #[trigger] vb@[k] == vit_val(gcps, k, Status::B),
            forall|k: int| 0 <= k < t ==> #[trigger] vm@[k] == vit_val(gcps, k, Status::M),
            forall|k: int| 0 <= k < t ==> #[trigger] ve@[k] == vit_val(gcps, k, Status::E),
            forall|k: int| 0 <= k < t ==> #[trigger] vs@[k] == vit_val(gcps, k, Status::S),
            forall|k: int| 1 <= k < t ==> #[trigger] pb@[k] == best_prev(gcps, k, Status::B),
            forall|k: int| 1 <= k < t ==> #[trigger] pm@[k] == best_prev(gcps, k, Status::M),
            forall|k: int| 1 <= k < t ==> #[trigger] pe@[k] == best_prev(gcps, k, Status::E),
            forall|k: int| 1 <= k < t ==> #[trigger] ps@[k] == best_prev(gcps, k, Status::S),
        decreases c - t,
    {
        proof {
            lemma_vit_val_bound(gcps, t - 1, Status::B);
            lemma_vit_val_bound(gcps, t - 1, Status::M);
            lemma_vit_val_bound(gcps, t - 1, Status::E);
            lemma_vit_val_bound(gcps, t - 1, Status::S);
        }
        let cp = cps[t];
        let ovb = vb[t - 1];
        let ovm = vm[t - 1];
        let ove = ve[t - 1];
        let ovs = vs[t - 1];
        let (bv, ba) = max4(
            ovb + (trans_lp(Status::B, Status::B) as i128),
            ovm + (trans_lp(Status::M, Status::B) as i128),
            ove + (trans_lp(Status::E, Status::B) as i128),
            ovs + (trans_lp(Status::S, Status::B) as i128),
        );
        vb.push(bv + (emit_lp(Status::B, cp) as i128));
        pb.push(ba);
        let (mv, ma) = max4(
            ovb + (trans_lp(Status::B, Status::M) as i128),
            ovm + (trans_lp(Status::M, Status::M) as i128),
            ove + (trans_lp(Status::E, Status::M) as i128),
            ovs + (trans_lp(Status::S, Status::M) as i128),
        );
        vm.push(mv + (emit_lp(Status::M, cp) as i128));
        pm.push(ma);
        let (ev, ea) = max4(
            ovb + (trans_lp(Status::B, Status::E) as i128),
            ovm + (trans_lp(Status::M, Status::E) as i128),
            ove + (trans_lp(Status::E, Status::E) as i128),
            ovs + (trans_lp(Status::S, Status::E) as i128),
        );
        ve.push(ev + (emit_lp(Status::E, cp) as i128));
        pe.push(ea);
        let (sv, sa) = max4(
            ovb + (trans_lp(Status::B, Status::S) as i128),
            ovm + (trans_lp(Status::M, Status::S) as i128),
            ove + (trans_lp(Status::E, Status::S) as i128),
            ovs + (trans_lp(Status::S, Status::S) as i128),
        );
        vs.push(sv + (emit_lp(Status::S, cp) as i128));
        ps.push(sa);
        t = t + 1;
    }
    let fin = if ve[c - 1] >= vs[c - 1] {
        Status::E
    } else {
        Status::S
    };
    proof {
        assert(fin == final_state(gcps));
    }
    let mut rev: Vec<Status> = Vec::new();
    let mut cur = fin;
    rev.push(cur);
    let mut u: usize = c - 1;
    while u >= 1
        invariant
            0 <= u <= c - 1,
            c == gcps.len(),
            pb@.len() == c && pm@.len() == c && pe@.len() == c && ps@.len() == c,
            forall|k: int| 1 <= k < c ==> #[trigger] pb@[k] == best_prev(gcps, k, Status::B),
            forall|k: int| 1 <= k < c ==> #[trigger] pm@[k] == best_prev(gcps, k, Status::M),
            forall|k: int| 1 <= k < c ==> #[trigger] pe@[k] == best_prev(gcps, k, Status::E),
            forall|k: int| 1 <= k < c ==> #[trigger] ps@[k] == best_prev(gcps, k, Status::S),
            rev@.len() == c - u,
            cur == path_at(gcps, u as int),
            forall|k: int|
                0 <= k < rev@.len() ==> #[trigger] rev@[k] == path_at(gcps, c - 1 - k),
        decreases u,
    {
        cur = match cur {
            Status::B => pb[u],
            Status::M => pm[u],
            Status::E => pe[u],
            Status::S => ps[u],
        };
        proof {
            assert(cur == best_prev(gcps, u as int, path_at(gcps, u as int)));
            assert(path_at(gcps, u - 1) == best_prev(gcps, u as int, path_at(gcps, u as int)));
        }
        rev.push(cur);
        u = u - 1;
    }
    rev
}

/// Closes a word at every E or S of the decoded path, which `rev` holds
/// last character first.
#[verifier::rlimit(100)]
#[verifier::spinoff_prover]
fn emit_segments(
    run: &Vec<u8>,
    offs: &Vec<usize>,
    rev: &Vec<Status>,
    Ghost(pathseq): Ghost<Seq<Status>>,
) -> (ws: Vec<Vec<u8>>)
    requires
        offs@.map_values(|x: usize| x as int) == offs_list(run@, 0),
        offs@.len() == rev@.len() + 1,
        pathseq.len() == rev@.len(),
        forall|k: int| 0 <= k < pathseq.len() ==> pathseq[k] == #[trigger] rev@[pathseq.len() - 1
            - k],
    ensures
        ws.deep_view() == emit_words(run@, offs_list(run@, 0), pathseq, 0, 0),
{
    let ghost full = offs_list(run@, 0);
    proof {
        lemma_offs_list_len(run@, 0);
    }
    let n = run.len();
    let c = rev.len();
    let mut ws: Vec<Vec<u8>> = Vec::new();
    let mut seg: usize = 0;
    let mut t2: usize = 0;
    proof {
        assert(ws.deep_view() =~~= Seq::<Seq<u8>>::empty());
        assert(Seq::<Seq<u8>>::empty() + emit_words(run@, full, pathseq, 0, 0) =~= emit_words(
            run@,
            full,
            pathseq,
            0,
            0,
        ));
    }
    while t2 < c
        invariant
            0 <= seg <= t2 <= c == pathseq.len(),
            n == run@.len(),
            full == offs_list(run@, 0),
            full == offs@.map_values(|x: usize| x as int),
            offs@.len() == c + 1,
            rev@.len() == c,
            forall|k: int| 0 <= k < c ==> pathseq[k] == #[trigger] rev@[c - 1 - k],
            forall|k1: int, k2: int| 0 <= k1 < k2 < full.len() ==> full[k1] < full[k2],
            forall|k: int| 0 <= k < full.len() ==> 0 <= #[trigger] full[k] <= n,
            emit_words(run@, full, pathseq, 0, 0) == ws.deep_view() + emit_words(
                run@,
                full,
                pathseq,
                t2 as int,
                seg as int,
            ),
        decreases c - t2,
    {
        let st = rev[c - 1 - t2];
        proof {
            assert(st == pathseq[t2 as int]);
        }
        let ghost pre = emit_words(run@, full, pathseq, t2 as int, seg as int);
        if match st {
            Status::E => true,
            Status::S => true,
            _ => false,
        } {
            let a = offs[seg];
            let b = offs[t2 + 1];
            proof {
                assert(full[seg as int] == a as int && full[t2 + 1 as int] == b as int);
                assert(a <= b <= n);
            }
            let w = copy_range(run, a, b);
            let ghost dv0 = ws.deep_view();
            ws.push(w);
            proof {
                let wseq = run@.subrange(a as int, b as int);
                assert(pre == seq![wseq] + emit_words(
                    run@,
                    full,
                    pathseq,
                    t2 + 1 as int,
                    t2 + 1 as int,
                ));
                assert(ws.deep_view() =~~= dv0.push(wseq));
                assert(dv0 + (seq![wseq] + emit_words(run@, full, pathseq, t2 + 1 as int, t2
                    + 1 as int)) =~= dv0.push(wseq) + emit_words(
                    run@,
                    full,
                    pathseq,
                    t2 + 1 as int,
                    t2 + 1 as int,
                ));
            }
            seg = t2 + 1;
        } else {
            proof {
                assert(pre == emit_words(run@, full, pathseq, t2 + 1 as int, seg as int));
            }
        }
        t2 = t2 + 1;
    }
    if seg < c {
        let a = offs[seg];
        proof {
            assert(full[seg as int] == a as int);
            assert(a <= n) by {
                assert(full[c as int] == n as int);
            }
        }
        let w = copy_range(run, a, n);
        let ghost dv0 = ws.deep_view();
        ws.push(w);
        proof {
            let wseq = run@.subrange(a as int, n as int);
            assert(full[c as int] == n as int);
            assert(emit_words(run@, full, pathseq, c as int, seg as int) == seq![wseq]);
            assert(ws.deep_view() =~~= dv0.push(wseq));
            assert(dv0 + seq![wseq] =~= dv0.push(wseq));
        }
    } else {
        proof {
            assert(emit_words(run@, full, pathseq, c as int, seg as int) =~= Seq::<
                Seq<u8>,
            >::empty());
            assert(ws.deep_view() + Seq::<Seq<u8>>::empty() =~= ws.deep_view());
        }
    }
    ws
}

/// Segments an out-of-vocabulary run with the Viterbi decoder.
pub fn hmm_cut(run: &Vec<u8>) -> (ws: Vec<Vec<u8>>)
    requires
        valid_utf8(run@),
        run@.len() > 0,
    ensures
        ws.deep_view() == spec_hmm_cut(run@),
{
    let (offs, cps) = decode_run(run);
    let ghost gcps = cps@;
    let rev = decode_path(&cps);
    let ghost pathseq = Seq::new(gcps.len(), |x: int| path_at(gcps, x));
    let ws = emit_segments(run, &offs, &rev, Ghost(pathseq));
    proof {
        assert(spec_hmm_cut(run@) == emit_words(run@, offs_list(run@, 0), pathseq, 0, 0)) by {
            assert(spec_cps(run@) == gcps);
            assert(Seq::new(spec_cps(run@).len(), |x: int| path_at(spec_cps(run@), x))
                =~= pathseq);
        }
    }
    ws
}

} // verus!
