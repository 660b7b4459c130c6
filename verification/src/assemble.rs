//! Fitting pre-rendered context blocks into the serve window.
//!
//! Context items arrive in relevance order (most relevant first); trajectory entries arrive in
//! time order (oldest first). When everything fits, the output is exactly the concatenation of
//! the blocks. When it does not, context keeps the longest fitting PREFIX and appends a bounded
//! truncation marker; a trajectory keeps the longest fitting SUFFIX and prepends one. A single
//! leading (resp. trailing) block that cannot fit on its own fails closed with its byte length.
use vstd::prelude::*;
use vstd::string::*;
use vstd::utf8::*;

use crate::text::{
    from_utf8_lossy, hex_lower, hex_lower_spec, lemma_hex_lower_len, utf8_lossy,
    all_ascii, blen, decimal, lemma_blen_ascii, lemma_blen_concat, lemma_decimal_ascii,
    lemma_decimal_len_u64, push_decimal, push_str,
};

verus! {

/// Bytes reserved for the truncation marker. The longest marker (every count a 20-digit
/// number) is far below this, so a trimmed output never exceeds the window cap.
pub const TRUNCATION_MARKER_RESERVE: usize = 192;

/// The character views of a slice of strings.
pub open spec fn views(bs: Seq<String>) -> Seq<Seq<char>> {
    bs.map_values(|s: String| s@)
}

/// Total UTF-8 byte length of a sequence of blocks.
pub open spec fn total(bs: Seq<Seq<char>>) -> nat
    decreases bs.len(),
{
    if bs.len() == 0 {
        0
    } else {
        blen(bs[0]) + total(bs.drop_first())
    }
}

/// The concatenation of a sequence of blocks.
pub open spec fn concat_all(bs: Seq<Seq<char>>) -> Seq<char>
    decreases bs.len(),
{
    if bs.len() == 0 {
        Seq::empty()
    } else {
        bs[0] + concat_all(bs.drop_first())
    }
}

/// How many LEADING blocks fit, one after another, within `budget` bytes.
pub open spec fn fit_count(bs: Seq<Seq<char>>, budget: nat) -> nat
    decreases bs.len(),
{
    if bs.len() == 0 {
        0
    } else if blen(bs[0]) <= budget {
        1 + fit_count(bs.drop_first(), (budget - blen(bs[0])) as nat)
    } else {
        0
    }
}

/// How many TRAILING blocks fit, newest first, within `budget` bytes.
pub open spec fn fit_count_rev(bs: Seq<Seq<char>>, budget: nat) -> nat
    decreases bs.len(),
{
    if bs.len() == 0 {
        0
    } else if blen(bs.last()) <= budget {
        1 + fit_count_rev(bs.drop_last(), (budget - blen(bs.last())) as nat)
    } else {
        0
    }
}

/// `cap - RESERVE`, floored at zero.
pub open spec fn marker_budget(cap: nat) -> nat {
    if cap >= TRUNCATION_MARKER_RESERVE {
        (cap - TRUNCATION_MARKER_RESERVE) as nat
    } else {
        0
    }
}

/// `"[context truncated: kept {k}/{n} items, dropped {d}B]\n\n"`.
pub open spec fn context_marker(k: nat, n: nat, d: nat) -> Seq<char> {
    "[context truncated: kept "@ + decimal(k) + "/"@ + decimal(n) + " items, dropped "@
        + decimal(d) + "B]\n\n"@
}

/// `"[context: dropped {s} older items ({d}B), kept {k} most recent]\n\n"`.
pub open spec fn trajectory_marker(s: nat, d: nat, k: nat) -> Seq<char> {
    "[context: dropped "@ + decimal(s) + " older items ("@ + decimal(d) + "B), kept "@
        + decimal(k) + " most recent]\n\n"@
}

/// What fitting relevance-ordered context blocks into `cap` bytes yields.
pub open spec fn fit_context(bs: Seq<Seq<char>>, cap: nat) -> Result<Seq<char>, nat> {
    if total(bs) <= cap {
        Ok(concat_all(bs))
    } else {
        let k = fit_count(bs, marker_budget(cap));
        if k == 0 {
            Err(if bs.len() == 0 { 0 } else { blen(bs[0]) })
        } else {
            Ok(concat_all(bs.take(k as int)) + context_marker(k, bs.len(), total(bs.skip(k as int))))
        }
    }
}

/// What fitting time-ordered trajectory blocks into `cap` bytes yields.
pub open spec fn fit_trajectory(bs: Seq<Seq<char>>, cap: nat) -> Result<Seq<char>, nat> {
    if total(bs) <= cap {
        Ok(concat_all(bs))
    } else {
        let k = fit_count_rev(bs, marker_budget(cap));
        let start = bs.len() - k;
        if k == 0 {
            Err(if bs.len() == 0 { 0 } else { blen(bs.last()) })
        } else {
            Ok(trajectory_marker(start as nat, total(bs.take(start)), k) + concat_all(bs.skip(start)))
        }
    }
}

// ----- lemmas ---------------------------------------------------------------------------

pub proof fn lemma_total_append(a: Seq<Seq<char>>, b: Seq<Seq<char>>)
    ensures
        total(a + b) == total(a) + total(b),
        concat_all(a + b) == concat_all(a) + concat_all(b),
    decreases a.len(),
{
    if a.len() == 0 {
        assert(a + b == b);
    } else {
        lemma_total_append(a.drop_first(), b);
        assert((a + b).drop_first() == a.drop_first() + b);
        assert((a + b)[0] == a[0]);
    }
}

pub proof fn lemma_total_push(a: Seq<Seq<char>>, x: Seq<char>)
    ensures
        total(a.push(x)) == total(a) + blen(x),
        concat_all(a.push(x)) == concat_all(a) + x,
{
    lemma_total_append(a, seq![x]);
    assert(a + seq![x] == a.push(x));
    assert(seq![x].drop_first() == Seq::<Seq<char>>::empty());
    assert(concat_all(Seq::<Seq<char>>::empty()) == Seq::<char>::empty());
    assert(seq![x][0] == x);
    assert(total(Seq::<Seq<char>>::empty()) == 0);
    assert(total(seq![x]) == blen(x));
    assert(concat_all(seq![x]) == x + Seq::<char>::empty());
    assert(x + Seq::<char>::empty() == x);
}

pub proof fn lemma_split_at(s: Seq<Seq<char>>, k: int)
    requires
        0 <= k <= s.len(),
    ensures
        total(s) == total(s.take(k)) + total(s.skip(k)),
        concat_all(s) == concat_all(s.take(k)) + concat_all(s.skip(k)),
{
    assert(s == s.take(k) + s.skip(k));
    lemma_total_append(s.take(k), s.skip(k));
}

pub proof fn lemma_concat_blen(s: Seq<Seq<char>>)
    ensures
        blen(concat_all(s)) == total(s),
    decreases s.len(),
{
    if s.len() > 0 {
        lemma_concat_blen(s.drop_first());
        lemma_blen_concat(s[0], concat_all(s.drop_first()));
    }
}

/// `fit_count` is the first index whose prefix no longer fits.
proof fn lemma_fit_count_is(s: Seq<Seq<char>>, b: nat, k: int)
    requires
        0 <= k <= s.len(),
        total(s.take(k)) <= b,
        k == s.len() || total(s.take(k + 1)) > b,
    ensures
        fit_count(s, b) == k,
    decreases s.len(),
{
    if s.len() == 0 {
    } else if k == 0 {
        assert(s.take(1) == seq![s[0]]);
        assert(seq![s[0]].drop_first() == Seq::<Seq<char>>::empty());
        assert(total(Seq::<Seq<char>>::empty()) == 0);
        assert(total(s.take(1)) == blen(s[0]));
    } else {
        let t = s.drop_first();
        let p = seq![s[0]] + t.take(k - 1);
        assert(s.take(k) == p);
        assert(p.drop_first() == t.take(k - 1));
        assert(p[0] == s[0]);
        assert(total(s.take(k)) == blen(s[0]) + total(t.take(k - 1)));
        assert(blen(s[0]) <= b);
        if k < s.len() {
            let q = seq![s[0]] + t.take(k);
            assert(s.take(k + 1) == q);
            assert(q.drop_first() == t.take(k));
            assert(q[0] == s[0]);
            assert(total(s.take(k + 1)) == blen(s[0]) + total(t.take(k)));
        }
        lemma_fit_count_is(t, (b - blen(s[0])) as nat, k - 1);
        assert(fit_count(s, b) == 1 + fit_count(t, (b - blen(s[0])) as nat));
    }
}

/// `fit_count_rev` is the first suffix length that no longer fits.
proof fn lemma_fit_count_rev_is(s: Seq<Seq<char>>, b: nat, k: int)
    requires
        0 <= k <= s.len(),
        total(s.skip(s.len() - k)) <= b,
        k == s.len() || total(s.skip(s.len() - k - 1)) > b,
    ensures
        fit_count_rev(s, b) == k,
    decreases s.len(),
{
    if s.len() == 0 {
    } else {
        let n = s.len() as int;
        let t = s.drop_last();
        if k == 0 {
            assert(s.skip(n - 1) == seq![s.last()]);
            assert(seq![s.last()].drop_first() == Seq::<Seq<char>>::empty());
            assert(seq![s.last()][0] == s.last());
            assert(total(Seq::<Seq<char>>::empty()) == 0);
            assert(total(s.skip(n - 1)) == blen(s.last()));
        } else {
            assert(s.skip(n - k) == t.skip(n - k).push(s.last()));
            lemma_total_push(t.skip(n - k), s.last());
            if k < n {
                assert(s.skip(n - k - 1) == t.skip(n - k - 1).push(s.last()));
                lemma_total_push(t.skip(n - k - 1), s.last());
            }
            assert(t.len() == n - 1);
            assert(t.skip(n - k) == t.skip(t.len() - (k - 1)));
            if k < n {
                assert(t.skip(n - k - 1) == t.skip(t.len() - (k - 1) - 1));
            }
            lemma_fit_count_rev_is(t, (b - blen(s.last())) as nat, k - 1);
        }
    }
}

proof fn lemma_fit_count_total(s: Seq<Seq<char>>, b: nat)
    ensures
        fit_count(s, b) <= s.len(),
        total(s.take(fit_count(s, b) as int)) <= b,
    decreases s.len(),
{
    if s.len() > 0 && blen(s[0]) <= b {
        let t = s.drop_first();
        let b2 = (b - blen(s[0])) as nat;
        lemma_fit_count_total(t, b2);
        let k = fit_count(s, b) as int;
        let p = seq![s[0]] + t.take(k - 1);
        assert(s.take(k) == p);
        assert(p.drop_first() == t.take(k - 1));
        assert(p[0] == s[0]);
    } else if s.len() > 0 {
        assert(s.take(0) == Seq::<Seq<char>>::empty());
    }
}

proof fn lemma_fit_count_rev_total(s: Seq<Seq<char>>, b: nat)
    ensures
        fit_count_rev(s, b) <= s.len(),
        total(s.skip(s.len() - fit_count_rev(s, b))) <= b,
    decreases s.len(),
{
    let n = s.len() as int;
    if n > 0 && blen(s.last()) <= b {
        let t = s.drop_last();
        let b2 = (b - blen(s.last())) as nat;
        lemma_fit_count_rev_total(t, b2);
        let k = fit_count_rev(s, b) as int;
        assert(s.skip(n - k) == t.skip(n - k).push(s.last()));
        assert(t.skip(n - k) == t.skip(t.len() - (k - 1)));
        lemma_total_push(t.skip(n - k), s.last());
    } else {
        assert(s.skip(n) == Seq::<Seq<char>>::empty());
    }
}

proof fn lemma_context_marker_len(k: nat, n: nat, d: nat)
    requires
        k <= u64::MAX,
        n <= u64::MAX,
        d <= u64::MAX,
    ensures
        blen(context_marker(k, n, d)) <= 106,
{
    reveal_strlit("[context truncated: kept ");
    reveal_strlit("/");
    reveal_strlit(" items, dropped ");
    reveal_strlit("B]\n\n");
    lemma_decimal_len_u64(k);
    lemma_decimal_len_u64(n);
    lemma_decimal_len_u64(d);
    lemma_decimal_ascii(k);
    lemma_decimal_ascii(n);
    lemma_decimal_ascii(d);
    let m = context_marker(k, n, d);
    assert(all_ascii(m));
    lemma_blen_ascii(m);
}

proof fn lemma_trajectory_marker_len(st: nat, d: nat, k: nat)
    requires
        k <= u64::MAX,
        st <= u64::MAX,
        d <= u64::MAX,
    ensures
        blen(trajectory_marker(st, d, k)) <= 120,
{
    reveal_strlit("[context: dropped ");
    reveal_strlit(" older items (");
    reveal_strlit("B), kept ");
    reveal_strlit(" most recent]\n\n");
    lemma_decimal_len_u64(k);
    lemma_decimal_len_u64(st);
    lemma_decimal_len_u64(d);
    lemma_decimal_ascii(k);
    lemma_decimal_ascii(st);
    lemma_decimal_ascii(d);
    let m = trajectory_marker(st, d, k);
    assert(all_ascii(m));
    lemma_blen_ascii(m);
}

/// Law: whatever `fit_context_blocks` returns fits the window — the output's byte length never
/// exceeds `cap` (given a cap of at least the marker reserve, or blocks that are never empty).
pub proof fn law_fit_context_within_cap(bs: Seq<Seq<char>>, cap: nat)
    requires
        bs.len() <= usize::MAX,
        total(bs) <= usize::MAX,
        cap >= TRUNCATION_MARKER_RESERVE || (forall|i: int| 0 <= i < bs.len() ==> blen(#[trigger] bs[i]) > 0),
    ensures
        fit_context(bs, cap) matches Ok(out) ==> blen(out) <= cap,
{
    lemma_concat_blen(bs);
    if total(bs) > cap {
        let b = marker_budget(cap);
        let k = fit_count(bs, b);
        lemma_fit_count_total(bs, b);
        if k > 0 {
            if cap < TRUNCATION_MARKER_RESERVE {
                assert(blen(bs[0]) > 0);
            }
            lemma_split_at(bs, k as int);
            lemma_concat_blen(bs.take(k as int));
            lemma_context_marker_len(k, bs.len(), total(bs.skip(k as int)));
            lemma_blen_concat(concat_all(bs.take(k as int)), context_marker(k, bs.len(), total(bs.skip(k as int))));
        }
    }
}

/// Law: whatever `fit_trajectory_blocks` returns fits the window — the output's byte length
/// never exceeds `cap` (given a cap of at least the marker reserve, or blocks that are never
/// empty).
pub proof fn law_fit_trajectory_within_cap(bs: Seq<Seq<char>>, cap: nat)
    requires
        bs.len() <= usize::MAX,
        total(bs) <= usize::MAX,
        cap >= TRUNCATION_MARKER_RESERVE || (forall|i: int| 0 <= i < bs.len() ==> blen(#[trigger] bs[i]) > 0),
    ensures
        fit_trajectory(bs, cap) matches Ok(out) ==> blen(out) <= cap,
{
    lemma_concat_blen(bs);
    if total(bs) > cap {
        let b = marker_budget(cap);
        let k = fit_count_rev(bs, b);
        lemma_fit_count_rev_total(bs, b);
        if k > 0 {
            let st = bs.len() - k;
            if cap < TRUNCATION_MARKER_RESERVE {
                assert(blen(bs[bs.len() - 1]) > 0);
            }
            lemma_split_at(bs, st as int);
            lemma_concat_blen(bs.skip(st as int));
            lemma_trajectory_marker_len(st as nat, total(bs.take(st as int)), k);
            lemma_blen_concat(trajectory_marker(st as nat, total(bs.take(st as int)), k), concat_all(bs.skip(st as int)));
        }
    }
}

/// Law: the context kept is the LARGEST prefix that fits — `k` leading blocks fit within `b`
/// bytes exactly when `k` is at most [`fit_count`], so when `fit_context_blocks` truncates it
/// keeps the longest run of leading blocks that fits `cap - 192`.
pub proof fn law_kept_prefix_is_the_largest_that_fits(bs: Seq<Seq<char>>, b: nat)
    ensures
        forall|k: int| 0 <= k <= bs.len() ==> (total(#[trigger] bs.take(k)) <= b <==> k <= fit_count(bs, b)),
    decreases bs.len(),
{
    assert(bs.take(0) =~= Seq::<Seq<char>>::empty());
    if bs.len() > 0 {
        let t = bs.drop_first();
        if blen(bs[0]) <= b {
            law_kept_prefix_is_the_largest_that_fits(t, (b - blen(bs[0])) as nat);
        }
        assert forall|k: int| 0 <= k <= bs.len() implies (total(#[trigger] bs.take(k)) <= b <==> k <= fit_count(bs, b)) by {
            if k > 0 {
                let p = bs.take(k);
                assert(p.drop_first() =~= t.take(k - 1));
                assert(p[0] == bs[0]);
                assert(total(p) == blen(bs[0]) + total(t.take(k - 1)));
            }
        }
    }
}

/// Law: the trajectory kept is the LARGEST suffix that fits — the `k` most recent blocks fit
/// within `b` bytes exactly when `k` is at most [`fit_count_rev`], so when
/// `fit_trajectory_blocks` truncates it keeps the longest run of recent blocks that fits
/// `cap - 192`.
pub proof fn law_kept_suffix_is_the_largest_that_fits(bs: Seq<Seq<char>>, b: nat)
    ensures
        forall|k: int| 0 <= k <= bs.len() ==> (total(#[trigger] bs.skip(bs.len() - k)) <= b <==> k <= fit_count_rev(bs, b)),
    decreases bs.len(),
{
    let n = bs.len() as int;
    assert(bs.skip(n) =~= Seq::<Seq<char>>::empty());
    if n > 0 {
        let t = bs.drop_last();
        if blen(bs.last()) <= b {
            law_kept_suffix_is_the_largest_that_fits(t, (b - blen(bs.last())) as nat);
        }
        assert forall|k: int| 0 <= k <= bs.len() implies (total(#[trigger] bs.skip(bs.len() - k)) <= b <==> k <= fit_count_rev(bs, b)) by {
            if k > 0 {
                assert(bs.skip(n - k) =~= t.skip(n - k).push(bs.last()));
                lemma_total_push(t.skip(n - k), bs.last());
                assert(t.skip(n - k) == t.skip(t.len() - (k - 1)));
            }
        }
    }
}

// ----- executable ---------------------------------------------------------------------------

/// Sum of the blocks' byte lengths.
fn total_bytes(blocks: &[String]) -> (r: usize)
    requires
        total(views(blocks@)) <= usize::MAX,
    ensures
        r == total(views(blocks@)),
{
    let ghost vs = views(blocks@);
    let mut sum: usize = 0;
    let mut i: usize = 0;
    while i < blocks.len()
        invariant
            vs == views(blocks@),
            i <= blocks.len(),
            total(vs) <= usize::MAX,
            sum == total(vs.take(i as int)),
        decreases blocks.len() - i,
    {
        proof {
            assert(vs.take(i + 1) == vs.take(i as int).push(vs[i as int]));
            lemma_total_push(vs.take(i as int), vs[i as int]);
            lemma_split_at(vs, i + 1);
        }
        sum = sum + blocks[i].as_str().len();
        i = i + 1;
    }
    assert(vs.take(blocks.len() as int) == vs);
    sum
}

/// Appends blocks `lo..hi` in order.
fn push_blocks(out: &mut String, blocks: &[String], lo: usize, hi: usize)
    requires
        lo <= hi <= blocks.len(),
    ensures
        final(out)@ == old(out)@ + concat_all(views(blocks@).subrange(lo as int, hi as int)),
{
    let ghost vs = views(blocks@);
    let mut i = lo;
    while i < hi
        invariant
            vs == views(blocks@),
            lo <= i <= hi <= blocks.len(),
            out@ == old(out)@ + concat_all(vs.subrange(lo as int, i as int)),
        decreases hi - i,
    {
        proof {
            assert(vs.subrange(lo as int, i + 1) == vs.subrange(lo as int, i as int).push(vs[i as int]));
            lemma_total_push(vs.subrange(lo as int, i as int), vs[i as int]);
        }
        push_str(out, blocks[i].as_str());
        i = i + 1;
    }
}

/// Fit relevance-ordered context `blocks` into `cap` bytes: the untrimmed concatenation when
/// everything fits; otherwise the longest fitting prefix within `cap - RESERVE` plus a marker
/// `"[context truncated: kept k/N items, dropped Bb]"`; `Err(len of the first block)` when not
/// even the first block fits.
pub fn fit_context_blocks(blocks: &[String], cap: usize) -> (r: Result<String, usize>)
    requires
        total(views(blocks@)) <= usize::MAX,
    ensures
        match r {
            Ok(s) => fit_context(views(blocks@), cap as nat) == Ok::<Seq<char>, nat>(s@),
            Err(n) => fit_context(views(blocks@), cap as nat) == Err::<Seq<char>, nat>(n as nat),
        },
{
    let ghost vs = views(blocks@);
    let n = blocks.len();
    let sum = total_bytes(blocks);
    if sum <= cap {
        let mut out = String::new();
        push_blocks(&mut out, blocks, 0, n);
        assert(vs.subrange(0, n as int) == vs);
        assert(Seq::<char>::empty() + concat_all(vs) == concat_all(vs));
        return Ok(out);
    }
    let budget: usize = if cap >= TRUNCATION_MARKER_RESERVE { cap - TRUNCATION_MARKER_RESERVE } else { 0 };
    let mut running: usize = 0;
    let mut kept: usize = 0;
    while kept < n
        invariant
            vs == views(blocks@),
            n == blocks.len(),
            kept <= n,
            total(vs) <= usize::MAX,
            running == total(vs.take(kept as int)),
            running <= budget,
        ensures
            kept <= n,
            running == total(vs.take(kept as int)),
            running <= budget,
            kept == n || total(vs.take(kept + 1)) > budget,
        decreases n - kept,
    {
        proof {
            assert(vs.take(kept + 1) == vs.take(kept as int).push(vs[kept as int]));
            lemma_total_push(vs.take(kept as int), vs[kept as int]);
            lemma_split_at(vs, kept + 1);
        }
        let len = blocks[kept].as_str().len();
        if running + len > budget {
            break;
        }
        running = running + len;
        kept = kept + 1;
    }
    proof {
        lemma_fit_count_is(vs, budget as nat, kept as int);
    }
    if kept == 0 {
        assert(vs[0] == blocks@[0]@);
        return Err(blocks[0].as_str().len());
    }
    proof {
        lemma_split_at(vs, kept as int);
    }
    let dropped = sum - running;
    let mut out = String::new();
    push_blocks(&mut out, blocks, 0, kept);
    assert(vs.subrange(0, kept as int) == vs.take(kept as int));
    push_str(&mut out, "[context truncated: kept ");
    push_decimal(&mut out, kept as u64);
    push_str(&mut out, "/");
    push_decimal(&mut out, n as u64);
    push_str(&mut out, " items, dropped ");
    push_decimal(&mut out, dropped as u64);
    push_str(&mut out, "B]\n\n");
    assert(out@ == concat_all(vs.take(kept as int)) + context_marker(kept as nat, n as nat, dropped as nat));
    Ok(out)
}

/// Fit time-ordered trajectory `blocks` into `cap` bytes: the untrimmed concatenation when
/// everything fits; otherwise a marker `"[context: dropped s older items (Bb), kept k most
/// recent]"` followed by the longest fitting suffix within `cap - RESERVE`; `Err(len of the
/// last block)` when not even the most recent block fits.
pub fn fit_trajectory_blocks(blocks: &[String], cap: usize) -> (r: Result<String, usize>)
    requires
        total(views(blocks@)) <= usize::MAX,
    ensures
        match r {
            Ok(s) => fit_trajectory(views(blocks@), cap as nat) == Ok::<Seq<char>, nat>(s@),
            Err(n) => fit_trajectory(views(blocks@), cap as nat) == Err::<Seq<char>, nat>(n as nat),
        },
{
    let ghost vs = views(blocks@);
    let n = blocks.len();
    let sum = total_bytes(blocks);
    if sum <= cap {
        let mut out = String::new();
        push_blocks(&mut out, blocks, 0, n);
        assert(vs.subrange(0, n as int) == vs);
        assert(Seq::<char>::empty() + concat_all(vs) == concat_all(vs));
        return Ok(out);
    }
    let budget: usize = if cap >= TRUNCATION_MARKER_RESERVE { cap - TRUNCATION_MARKER_RESERVE } else { 0 };
    let mut running: usize = 0;
    let mut kept: usize = 0;
    while kept < n
        invariant
            vs == views(blocks@),
            n == blocks.len(),
            kept <= n,
            total(vs) <= usize::MAX,
            running == total(vs.skip(n - kept)),
            running <= budget,
        ensures
            kept <= n,
            running == total(vs.skip(n - kept)),
            running <= budget,
            kept == n || total(vs.skip(n - kept - 1)) > budget,
        decreases n - kept,
    {
        let idx = n - 1 - kept;
        proof {
            assert(vs.skip(idx as int) == seq![vs[idx as int]] + vs.skip(n - kept));
            assert((seq![vs[idx as int]] + vs.skip(n - kept)).drop_first() == vs.skip(n - kept));
            lemma_split_at(vs, idx as int);
        }
        let len = blocks[idx].as_str().len();
        if running + len > budget {
            break;
        }
        running = running + len;
        kept = kept + 1;
    }
    proof {
        lemma_fit_count_rev_is(vs, budget as nat, kept as int);
    }
    if kept == 0 {
        assert(vs.last() == blocks@[n - 1]@);
        assert(fit_count_rev(vs, marker_budget(cap as nat)) == 0);
        assert(total(vs) > cap);
        assert(vs.len() > 0);
        assert(fit_trajectory(vs, cap as nat) == Err::<Seq<char>, nat>(blen(vs.last())));
        proof {
            lemma_split_at(vs, n - 1);
            assert(vs.skip(n - 1) == seq![vs.last()]);
            lemma_total_push(Seq::<Seq<char>>::empty(), vs.last());
            assert(Seq::<Seq<char>>::empty().push(vs.last()) == seq![vs.last()]);
        }
        let last_len = blocks[n - 1].as_str().len();
        assert(last_len as nat == blen(vs.last()));
        return Err(last_len);
    }
    let start = n - kept;
    proof {
        lemma_split_at(vs, start as int);
    }
    let dropped = sum - running;
    let mut out = String::new();
    push_str(&mut out, "[context: dropped ");
    push_decimal(&mut out, start as u64);
    push_str(&mut out, " older items (");
    push_decimal(&mut out, dropped as u64);
    push_str(&mut out, "B), kept ");
    push_decimal(&mut out, kept as u64);
    push_str(&mut out, " most recent]\n\n");
    let ghost m = out@;
    push_blocks(&mut out, blocks, start, n);
    assert(vs.subrange(start as int, n as int) == vs.skip(start as int));
    assert(m == trajectory_marker(start as nat, dropped as nat, kept as nat));
    Ok(out)
}


// ----- rendering fetched content ------------------------------------------------------------

/// Why serve context could not be assembled. Both variants fail closed: the model never runs on
/// partial or unbounded context.
#[derive(Debug, Clone, PartialEq, Eq)]
pub enum AssembleError {
    /// A declared content ref did not resolve in the shared store.
    UpstreamMissing([u8; 32]),
    /// The rendered context exceeded the serve window cap.
    Overflow { needed: usize, cap: usize },
}

/// One attached context-bundle item: a label and the content ref of its body.
#[derive(Debug, Clone, PartialEq, Eq)]
pub struct ContextItemRef {
    pub name: String,
    pub content_ref: [u8; 32],
}

/// `"[context {label}]\n{body}\n\n"`.
pub open spec fn block_text(label: Seq<char>, body: Seq<char>) -> Seq<char> {
    "[context "@ + label + "]\n"@ + body + "\n\n"@
}

/// The default label of a ref: the first 16 hex digits.
pub open spec fn ref_label(r: Seq<u8>) -> Seq<char> {
    hex_lower_spec(r).take(16)
}

/// The label of a context item: its name, or the ref's short hex when it has none.
pub open spec fn item_label(name: Seq<char>, r: Seq<u8>) -> Seq<char> {
    if name.len() == 0 { ref_label(r) } else { name }
}

/// The labeled block of a context item whose body is `bytes`.
pub open spec fn item_block(it: ContextItemRef, bytes: Seq<u8>) -> Seq<char> {
    block_text(item_label(it.name@, it.content_ref@), utf8_lossy(bytes))
}

/// The labeled block of a trajectory / parent entry whose body is `bytes`.
pub open spec fn parent_block(r: Seq<u8>, bytes: Seq<u8>) -> Seq<char> {
    block_text("parent."@ + ref_label(r), utf8_lossy(bytes))
}

/// The first position whose blob did not resolve, if any.
pub open spec fn first_missing(blobs: Seq<Option<Vec<u8>>>) -> Option<int> {
    if exists|i: int| 0 <= i < blobs.len() && blobs[i] is None {
        Some(choose|i: int| 0 <= i < blobs.len() && blobs[i] is None && (forall|j: int| 0 <= j < i ==> blobs[j] is Some))
    } else {
        None
    }
}

pub open spec fn item_blocks(items: Seq<ContextItemRef>, blobs: Seq<Option<Vec<u8>>>) -> Seq<Seq<char>> {
    Seq::new(items.len(), |i: int| item_block(items[i], blobs[i]->0@))
}

pub open spec fn entry_blocks(refs: Seq<[u8; 32]>, blobs: Seq<Option<Vec<u8>>>) -> Seq<Seq<char>> {
    Seq::new(refs.len(), |i: int| parent_block(refs[i]@, blobs[i]->0@))
}

/// Lift a fit result to the assembly result.
pub open spec fn lift_fit(r: Result<Seq<char>, nat>, cap: nat) -> Result<Seq<char>, (nat, nat)> {
    match r {
        Ok(s) => Ok(s),
        Err(n) => Err((n, cap)),
    }
}

/// The assembly result as a spec value: `Err((needed, cap))` stands for `Overflow`.
pub open spec fn assembled(r: Result<String, AssembleError>) -> Result<Seq<char>, (nat, nat)> {
    match r {
        Ok(s) => Ok(s@),
        Err(AssembleError::Overflow { needed, cap }) => Err((needed as nat, cap as nat)),
        Err(AssembleError::UpstreamMissing(_)) => Err((0, 0)),
    }
}

proof fn lemma_first_missing(blobs: Seq<Option<Vec<u8>>>, i: int)
    requires
        0 <= i < blobs.len(),
        blobs[i] is None,
        forall|j: int| 0 <= j < i ==> blobs[j] is Some,
    ensures
        first_missing(blobs) == Some(i),
{
    let k = choose|k: int| 0 <= k < blobs.len() && blobs[k] is None && (forall|j: int| 0 <= j < k ==> blobs[j] is Some);
    assert(0 <= k < blobs.len() && blobs[k] is None && (forall|j: int| 0 <= j < k ==> blobs[j] is Some));
    if k < i {
        assert(blobs[k] is Some);
    } else if k > i {
        assert(blobs[i] is Some);
    }
}

fn short_label(r: &[u8; 32]) -> (s: String)
    ensures
        s@ == ref_label(r@),
{
    let h = hex_lower(r);
    proof { lemma_hex_lower_len(r@); }
    let hs = h.as_str();
    let t = hs.substring_char(0, 16);
    String::from_str(t)
}

fn render_block(label: &str, bytes: &[u8]) -> (s: String)
    ensures
        s@ == block_text(label@, utf8_lossy(bytes@)),
{
    let mut out = String::new();
    push_str(&mut out, "[context ");
    push_str(&mut out, label);
    push_str(&mut out, "]\n");
    let body = from_utf8_lossy(bytes);
    push_str(&mut out, body.as_str());
    push_str(&mut out, "\n\n");
    out
}

/// Render attached context-bundle `items` (in relevance order) whose bodies the store resolved
/// to `blobs` (`None` = not in the store), then fit them into `cap` bytes. A missing body fails
/// closed with the first unresolved ref; an oversized first block fails closed as `Overflow`.
pub fn assemble_context_items(items: &[ContextItemRef], blobs: &[Option<Vec<u8>>], cap: usize) -> (r: Result<String, AssembleError>)
    requires
        items.len() == blobs.len(),
        first_missing(blobs@) is None ==> total(item_blocks(items@, blobs@)) <= usize::MAX,
    ensures
        match first_missing(blobs@) {
            Some(i) => r == Err::<String, AssembleError>(AssembleError::UpstreamMissing(items@[i].content_ref)),
            None => assembled(r) == lift_fit(fit_context(item_blocks(items@, blobs@), cap as nat), cap as nat)
                && (r is Ok || r->Err_0 is Overflow),
        },
{
    let mut blocks: Vec<String> = Vec::new();
    let mut i: usize = 0;
    while i < items.len()
        invariant
            items.len() == blobs.len(),
            i <= items.len(),
            blocks@.len() == i,
            forall|j: int| 0 <= j < i ==> blobs@[j] is Some,
            forall|j: int| 0 <= j < i ==> #[trigger] blocks@[j]@ == item_block(items@[j], blobs@[j]->0@),
        decreases items.len() - i,
    {
        match &blobs[i] {
            None => {
                proof { lemma_first_missing(blobs@, i as int); }
                return Err(AssembleError::UpstreamMissing(items[i].content_ref));
            },
            Some(bytes) => {
                let it = &items[i];
                let label = if it.name.as_str().unicode_len() == 0 {
                    short_label(&it.content_ref)
                } else {
                    it.name.clone()
                };
                let b = render_block(label.as_str(), bytes.as_slice());
                blocks.push(b);
            },
        }
        i = i + 1;
    }
    assert(first_missing(blobs@) is None);
    assert(views(blocks@) =~= item_blocks(items@, blobs@));
    match fit_context_blocks(blocks.as_slice(), cap) {
        Ok(s) => Ok(s),
        Err(needed) => Err(AssembleError::Overflow { needed, cap }),
    }
}

/// Render a time-ordered trajectory (each entry's result ref resolved by the store to `blobs`)
/// IN INPUT ORDER, then fit it into `cap` bytes keeping the most recent suffix. A missing body
/// fails closed with the first unresolved ref.
pub fn assemble_trajectory(refs: &[[u8; 32]], blobs: &[Option<Vec<u8>>], cap: usize) -> (r: Result<String, AssembleError>)
    requires
        refs.len() == blobs.len(),
        first_missing(blobs@) is None ==> total(entry_blocks(refs@, blobs@)) <= usize::MAX,
    ensures
        match first_missing(blobs@) {
            Some(i) => r == Err::<String, AssembleError>(AssembleError::UpstreamMissing(refs@[i])),
            None => assembled(r) == lift_fit(fit_trajectory(entry_blocks(refs@, blobs@), cap as nat), cap as nat)
                && (r is Ok || r->Err_0 is Overflow),
        },
{
    let mut blocks: Vec<String> = Vec::new();
    let mut i: usize = 0;
    while i < refs.len()
        invariant
            refs.len() == blobs.len(),
            i <= refs.len(),
            blocks@.len() == i,
            forall|j: int| 0 <= j < i ==> blobs@[j] is Some,
            forall|j: int| 0 <= j < i ==> #[trigger] blocks@[j]@ == parent_block(refs@[j]@, blobs@[j]->0@),
        decreases refs.len() - i,
    {
        match &blobs[i] {
            None => {
                proof { lemma_first_missing(blobs@, i as int); }
                return Err(AssembleError::UpstreamMissing(refs[i]));
            },
            Some(bytes) => {
                let mut label = String::from_str("parent.");
                let short = short_label(&refs[i]);
                push_str(&mut label, short.as_str());
                let b = render_block(label.as_str(), bytes.as_slice());
                blocks.push(b);
            },
        }
        i = i + 1;
    }
    assert(first_missing(blobs@) is None);
    assert(views(blocks@) =~= entry_blocks(refs@, blobs@));
    match fit_trajectory_blocks(blocks.as_slice(), cap) {
        Ok(s) => Ok(s),
        Err(needed) => Err(AssembleError::Overflow { needed, cap }),
    }
}

// ----- parent context ------------------------------------------------------------------------

/// Byte-lexicographic order on ids.
pub open spec fn id_lt(a: Seq<u8>, b: Seq<u8>) -> bool
    decreases a.len(),
{
    if a.len() == 0 {
        b.len() > 0
    } else if b.len() == 0 {
        false
    } else if a[0] != b[0] {
        a[0] < b[0]
    } else {
        id_lt(a.drop_first(), b.drop_first())
    }
}

pub proof fn lemma_id_lt_irreflexive(a: Seq<u8>)
    ensures
        !id_lt(a, a),
    decreases a.len(),
{
    if a.len() > 0 {
        lemma_id_lt_irreflexive(a.drop_first());
    }
}

pub proof fn lemma_id_lt_transitive(a: Seq<u8>, b: Seq<u8>, c: Seq<u8>)
    requires
        id_lt(a, b),
        id_lt(b, c),
    ensures
        id_lt(a, c),
    decreases a.len(),
{
    if a.len() > 0 && b.len() > 0 && c.len() > 0 && a[0] == b[0] && b[0] == c[0] {
        lemma_id_lt_transitive(a.drop_first(), b.drop_first(), c.drop_first());
    }
}

pub proof fn lemma_id_lt_total(a: Seq<u8>, b: Seq<u8>)
    ensures
        a == b || id_lt(a, b) || id_lt(b, a),
    decreases a.len(),
{
    if a.len() == 0 && b.len() == 0 {
        assert(a =~= b);
    } else if a.len() > 0 && b.len() > 0 && a[0] == b[0] {
        lemma_id_lt_total(a.drop_first(), b.drop_first());
        if a.drop_first() == b.drop_first() {
            assert(a =~= b) by {
                assert forall|i: int| 0 <= i < a.len() implies a[i] == b[i] by {
                    if i > 0 {
                        assert(a[i] == a.drop_first()[i - 1]);
                        assert(b[i] == b.drop_first()[i - 1]);
                    }
                }
            }
        }
    }
}

fn id_less(a: &[u8; 32], b: &[u8; 32]) -> (r: bool)
    ensures
        r == id_lt(a@, b@),
{
    let mut i: usize = 0;
    assert(a@.skip(0) == a@ && b@.skip(0) == b@);
    while i < 32
        invariant
            i <= 32,
            a@.len() == 32 && b@.len() == 32,
            id_lt(a@, b@) == id_lt(a@.skip(i as int), b@.skip(i as int)),
        decreases 32 - i,
    {
        assert(a@.skip(i as int)[0] == a@[i as int]);
        assert(b@.skip(i as int)[0] == b@[i as int]);
        if a[i] != b[i] {
            return a[i] < b[i];
        }
        assert(a@.skip(i as int).drop_first() == a@.skip(i + 1));
        assert(b@.skip(i as int).drop_first() == b@.skip(i + 1));
        i = i + 1;
    }
    false
}

fn id_same(a: &[u8; 32], b: &[u8; 32]) -> (r: bool)
    ensures
        r == (a@ == b@),
{
    let mut i: usize = 0;
    while i < 32
        invariant
            i <= 32,
            forall|j: int| 0 <= j < i ==> a@[j] == b@[j],
        decreases 32 - i,
    {
        if a[i] != b[i] {
            return false;
        }
        i = i + 1;
    }
    assert(a@ =~= b@);
    true
}

/// The parent ids, in wire order.
pub open spec fn parent_ids(parents: Seq<([u8; 32], [u8; 32])>) -> Seq<Seq<u8>> {
    parents.map_values(|p: ([u8; 32], [u8; 32])| p.0@)
}

/// Ids strictly ascending (so also free of repeats).
pub open spec fn ids_ascending(ks: Seq<Seq<u8>>) -> bool {
    forall|i: int, j: int| 0 <= i < j < ks.len() ==> id_lt(#[trigger] ks[i], #[trigger] ks[j])
}

/// `ks` is the distinct ids of `ids`, ascending.
pub open spec fn sorted_distinct_of(ids: Seq<Seq<u8>>, ks: Seq<Seq<u8>>) -> bool {
    ids_ascending(ks) && forall|x: Seq<u8>| ks.contains(x) <==> ids.contains(x)
}

/// The rendering order: the distinct parent ids, ascending.
pub open spec fn parent_order(ids: Seq<Seq<u8>>) -> Seq<Seq<u8>> {
    choose|ks: Seq<Seq<u8>>| sorted_distinct_of(ids, ks)
}

/// The position of an id's first occurrence.
pub open spec fn first_pos(ids: Seq<Seq<u8>>, x: Seq<u8>) -> int {
    choose|i: int| 0 <= i < ids.len() && ids[i] == x && forall|j: int| 0 <= j < i ==> ids[j] != x
}

/// For each id of the rendering order, the result ref of its first occurrence.
pub open spec fn chosen_refs(parents: Seq<([u8; 32], [u8; 32])>, ks: Seq<Seq<u8>>) -> Seq<[u8; 32]> {
    ks.map_values(|x: Seq<u8>| parents[first_pos(parent_ids(parents), x)].1)
}

/// For each id of the rendering order, what the store resolved its first occurrence's ref to.
pub open spec fn chosen_bodies(parents: Seq<([u8; 32], [u8; 32])>, blobs: Seq<Option<Vec<u8>>>, ks: Seq<Seq<u8>>) -> Seq<Option<Vec<u8>>> {
    ks.map_values(|x: Seq<u8>| blobs[first_pos(parent_ids(parents), x)])
}

/// Render entries in order: a missing body fails closed with its ref; a block that would take
/// the running byte count `used` past `cap` fails closed with the count it needed.
pub open spec fn render_parent_blocks(rs: Seq<[u8; 32]>, bodies: Seq<Option<Vec<u8>>>, used: nat, cap: usize) -> Result<Seq<char>, AssembleError>
    decreases rs.len(),
{
    if rs.len() == 0 || bodies.len() == 0 {
        Ok(Seq::empty())
    } else {
        match bodies[0] {
            None => Err(AssembleError::UpstreamMissing(rs[0])),
            Some(b) => {
                let blk = parent_block(rs[0]@, b@);
                let need = used + blen(blk);
                if need > cap {
                    Err(AssembleError::Overflow { needed: need as usize, cap })
                } else {
                    match render_parent_blocks(rs.drop_first(), bodies.drop_first(), need, cap) {
                        Ok(t) => Ok(blk + t),
                        Err(e) => Err(e),
                    }
                }
            },
        }
    }
}

/// The blocks of the present bodies (a missing one counts as empty).
pub open spec fn present_blocks(rs: Seq<[u8; 32]>, bodies: Seq<Option<Vec<u8>>>) -> Seq<Seq<char>> {
    Seq::new(rs.len(), |i: int| match bodies[i] { Some(b) => parent_block(rs[i]@, b@), None => Seq::<char>::empty() })
}

/// What the parent context of `parents` renders to, given what the store resolved each ref to.
pub open spec fn parent_rendering(parents: Seq<([u8; 32], [u8; 32])>, blobs: Seq<Option<Vec<u8>>>, cap: usize) -> Result<Seq<char>, AssembleError> {
    let ks = parent_order(parent_ids(parents));
    render_parent_blocks(chosen_refs(parents, ks), chosen_bodies(parents, blobs, ks), 0, cap)
}

/// The exact result as a spec value.
pub open spec fn as_spec(r: Result<String, AssembleError>) -> Result<Seq<char>, AssembleError> {
    match r {
        Ok(s) => Ok(s@),
        Err(e) => Err(e),
    }
}

proof fn lemma_first_pos(ids: Seq<Seq<u8>>, i: int)
    requires
        0 <= i < ids.len(),
        forall|j: int| 0 <= j < i ==> ids[j] != ids[i],
    ensures
        first_pos(ids, ids[i]) == i,
{
    let x = ids[i];
    let k = choose|k: int| 0 <= k < ids.len() && ids[k] == x && forall|j: int| 0 <= j < k ==> ids[j] != x;
    assert(0 <= k < ids.len() && ids[k] == x && forall|j: int| 0 <= j < k ==> ids[j] != x);
    if k < i {
        assert(ids[k] != ids[i]);
    } else if k > i {
        assert(ids[i] != x);
    }
}

proof fn lemma_first_pos_exists(ids: Seq<Seq<u8>>, x: Seq<u8>)
    requires
        ids.contains(x),
    ensures
        0 <= first_pos(ids, x) < ids.len(),
        ids[first_pos(ids, x)] == x,
        forall|j: int| 0 <= j < first_pos(ids, x) ==> ids[j] != x,
    decreases ids.len(),
{
    let i = choose|i: int| 0 <= i < ids.len() && ids[i] == x;
    if exists|j: int| 0 <= j < i && ids[j] == x {
        let j = choose|j: int| 0 <= j < i && ids[j] == x;
        let t = ids.take(i);
        assert(t[j] == x);
        lemma_first_pos_exists(t, x);
        let f = first_pos(t, x);
        assert(forall|q: int| 0 <= q < f ==> ids[q] == t[q]);
        lemma_first_pos(ids, f);
    } else {
        lemma_first_pos(ids, i);
    }
}

/// Two ascending id sequences with the same members are equal.
proof fn lemma_ascending_unique(a: Seq<Seq<u8>>, b: Seq<Seq<u8>>)
    requires
        ids_ascending(a),
        ids_ascending(b),
        forall|x: Seq<u8>| a.contains(x) <==> b.contains(x),
    ensures
        a == b,
    decreases a.len(),
{
    if a.len() == 0 {
        if b.len() > 0 {
            assert(b.contains(b[0]));
        }
        assert(a =~= b);
    } else {
        assert(a.contains(a[0]));
        let j = choose|j: int| 0 <= j < b.len() && b[j] == a[0];
        assert(b.contains(b[0]));
        let i = choose|i: int| 0 <= i < a.len() && a[i] == b[0];
        if j > 0 {
            assert(id_lt(b[0], b[j]));
            if i > 0 {
                assert(id_lt(a[0], a[i]));
                lemma_id_lt_transitive(a[0], b[0], a[0]);
                lemma_id_lt_irreflexive(a[0]);
            } else {
                lemma_id_lt_irreflexive(a[0]);
            }
        }
        assert(a[0] == b[0]);
        let a1 = a.drop_first();
        let b1 = b.drop_first();
        assert forall|x: Seq<u8>| a1.contains(x) <==> b1.contains(x) by {
            if a1.contains(x) {
                let p = choose|p: int| 0 <= p < a1.len() && a1[p] == x;
                assert(a[p + 1] == x);
                assert(id_lt(a[0], a[p + 1]));
                assert(b.contains(x));
                let q = choose|q: int| 0 <= q < b.len() && b[q] == x;
                if q == 0 {
                    lemma_id_lt_irreflexive(x);
                }
                assert(b1[q - 1] == x);
            }
            if b1.contains(x) {
                let p = choose|p: int| 0 <= p < b1.len() && b1[p] == x;
                assert(b[p + 1] == x);
                assert(id_lt(b[0], b[p + 1]));
                assert(a.contains(x));
                let q = choose|q: int| 0 <= q < a.len() && a[q] == x;
                if q == 0 {
                    lemma_id_lt_irreflexive(x);
                }
                assert(a1[q - 1] == x);
            }
        }
        assert(ids_ascending(a1)) by {
            assert forall|p: int, q: int| 0 <= p < q < a1.len() implies id_lt(#[trigger] a1[p], #[trigger] a1[q]) by {
                assert(a1[p] == a[p + 1] && a1[q] == a[q + 1]);
            }
        }
        assert(ids_ascending(b1)) by {
            assert forall|p: int, q: int| 0 <= p < q < b1.len() implies id_lt(#[trigger] b1[p], #[trigger] b1[q]) by {
                assert(b1[p] == b[p + 1] && b1[q] == b[q + 1]);
            }
        }
        lemma_ascending_unique(a1, b1);
        assert(a =~= b) by {
            assert forall|p: int| 0 <= p < a.len() implies a[p] == b[p] by {
                if p > 0 {
                    assert(a[p] == a1[p - 1] && b[p] == b1[p - 1]);
                }
            }
        }
    }
}

proof fn lemma_parent_order(ids: Seq<Seq<u8>>, ks: Seq<Seq<u8>>)
    requires
        sorted_distinct_of(ids, ks),
    ensures
        parent_order(ids) == ks,
{
    let c = parent_order(ids);
    assert(sorted_distinct_of(ids, c));
    lemma_ascending_unique(c, ks);
}

proof fn lemma_sorted_insert(ks: Seq<Seq<u8>>, p: int, x: Seq<u8>)
    requires
        ids_ascending(ks),
        0 <= p <= ks.len(),
        forall|k: int| 0 <= k < p ==> id_lt(#[trigger] ks[k], x),
        forall|k: int| p <= k < ks.len() ==> id_lt(x, #[trigger] ks[k]),
    ensures
        ids_ascending(ks.insert(p, x)),
{
    let n = ks.insert(p, x);
    assert forall|a: int, b: int| 0 <= a < b < n.len() implies id_lt(#[trigger] n[a], #[trigger] n[b]) by {
        if b < p {
            assert(n[a] == ks[a] && n[b] == ks[b]);
        } else if b == p {
            assert(n[a] == ks[a] && n[b] == x);
        } else if a < p {
            assert(n[a] == ks[a] && n[b] == ks[b - 1]);
            lemma_id_lt_transitive(ks[a], x, ks[b - 1]);
        } else if a == p {
            assert(n[a] == x && n[b] == ks[b - 1]);
        } else {
            assert(n[a] == ks[a - 1] && n[b] == ks[b - 1]);
        }
    }
}

/// The positions of the first occurrences of the distinct parent ids, ascending by id.
fn parent_positions(parents: &[([u8; 32], [u8; 32])]) -> (order: Vec<usize>)
    ensures
        sorted_distinct_of(parent_ids(parents@), order@.map_values(|k: usize| parent_ids(parents@)[k as int])),
        forall|k: int| 0 <= k < order@.len() ==> (#[trigger] order@[k]) < parents@.len()
            && forall|j: int| 0 <= j < order@[k] ==> #[trigger] parent_ids(parents@)[j] != parent_ids(parents@)[order@[k] as int],
{
    let ghost ids = parent_ids(parents@);
    let mut order: Vec<usize> = Vec::new();
    let mut i: usize = 0;
    while i < parents.len()
        invariant
            i <= parents.len(),
            ids == parent_ids(parents@),
            ids.len() == parents@.len(),
            ids_ascending(order@.map_values(|k: usize| ids[k as int])),
            forall|x: Seq<u8>| order@.map_values(|k: usize| ids[k as int]).contains(x) <==> ids.take(i as int).contains(x),
            forall|k: int| 0 <= k < order@.len() ==> (#[trigger] order@[k]) < i
                && forall|j: int| 0 <= j < order@[k] ==> #[trigger] ids[j] != ids[order@[k] as int],
        decreases parents.len() - i,
    {
        let ghost ks = order@.map_values(|k: usize| ids[k as int]);
        let ghost x = ids[i as int];
        assert(ids.take(i + 1) == ids.take(i as int).push(x));
        // Already seen?
        let mut seen = false;
        let mut q: usize = 0;
        while q < order.len()
            invariant
                q <= order.len(),
                ks == order@.map_values(|k: usize| ids[k as int]),
                ids == parent_ids(parents@),
                i < parents.len(),
                x == ids[i as int],
                forall|k: int| 0 <= k < order@.len() ==> (#[trigger] order@[k]) < i,
                seen <==> exists|k: int| 0 <= k < q && ks[k] == x,
            decreases order.len() - q,
        {
            let oq = order[q];
            assert(ks[q as int] == ids[oq as int]);
            if id_same(&parents[oq].0, &parents[i].0) {
                seen = true;
            }
            q = q + 1;
        }
        if !seen {
            proof {
                assert(!ks.contains(x));
                assert forall|j: int| 0 <= j < i implies ids[j] != x by {
                    if ids[j] == x {
                        assert(ids.take(i as int)[j] == x);
                        assert(ids.take(i as int).contains(x));
                    }
                }
            }
            let mut p: usize = 0;
            while p < order.len()
                invariant
                    p <= order.len(),
                    ks == order@.map_values(|k: usize| ids[k as int]),
                    ids == parent_ids(parents@),
                    i < parents.len(),
                    x == ids[i as int],
                    !ks.contains(x),
                    forall|k: int| 0 <= k < order@.len() ==> (#[trigger] order@[k]) < i,
                    forall|k: int| 0 <= k < p ==> id_lt(#[trigger] ks[k], x),
                ensures
                    p <= order.len(),
                    forall|k: int| 0 <= k < p ==> id_lt(#[trigger] ks[k], x),
                    p < order.len() ==> id_lt(x, ks[p as int]),
                decreases order.len() - p,
            {
                let op = order[p];
                assert(ks[p as int] == ids[op as int]);
                if id_less(&parents[i].0, &parents[op].0) {
                    break;
                }
                proof {
                    lemma_id_lt_total(ks[p as int], x);
                    assert(ks.contains(ks[p as int]));
                }
                p = p + 1;
            }
            proof {
                if p < order.len() {
                    assert(id_lt(x, ks[p as int]));
                    assert forall|k: int| p <= k < ks.len() implies id_lt(x, #[trigger] ks[k]) by {
                        if k > p {
                            lemma_id_lt_transitive(x, ks[p as int], ks[k]);
                        }
                    }
                }
                lemma_sorted_insert(ks, p as int, x);
            }
            let ghost old_order = order@;
            order.insert(p, i);
            proof {
                let nk = order@.map_values(|k: usize| ids[k as int]);
                assert(nk =~= ks.insert(p as int, x));
                assert forall|y: Seq<u8>| nk.contains(y) <==> ids.take(i + 1).contains(y) by {
                    if nk.contains(y) {
                        let m = choose|m: int| 0 <= m < nk.len() && nk[m] == y;
                        if m < p {
                            assert(ks[m] == y);
                            assert(ks.contains(y));
                            assert(ids.take(i as int).contains(y));
                            let w = choose|w: int| 0 <= w < i && #[trigger] ids.take(i as int)[w] == y;
                            assert(ids.take(i + 1)[w] == y);
                        } else if m == p {
                            assert(ids.take(i + 1)[i as int] == y);
                        } else {
                            assert(ks[m - 1] == y);
                            assert(ks.contains(y));
                            assert(ids.take(i as int).contains(y));
                            let w = choose|w: int| 0 <= w < i && #[trigger] ids.take(i as int)[w] == y;
                            assert(ids.take(i + 1)[w] == y);
                        }
                    }
                    if ids.take(i + 1).contains(y) {
                        let w = choose|w: int| 0 <= w < i + 1 && #[trigger] ids.take(i + 1)[w] == y;
                        if w == i {
                            assert(nk[p as int] == y);
                        } else {
                            assert(ids.take(i as int)[w] == y);
                            assert(ids.take(i as int).contains(y));
                            assert(ks.contains(y));
                            let m = choose|m: int| 0 <= m < ks.len() && ks[m] == y;
                            if m < p {
                                assert(nk[m] == y);
                            } else {
                                assert(nk[m + 1] == y);
                            }
                        }
                    }
                }
                assert forall|k: int| 0 <= k < order@.len() implies (#[trigger] order@[k]) < i + 1
                    && forall|j: int| 0 <= j < order@[k] ==> #[trigger] ids[j] != ids[order@[k] as int] by {
                    if k < p {
                        assert(order@[k] == old_order[k]);
                    } else if k > p {
                        assert(order@[k] == old_order[k - 1]);
                    }
                }
            }
        } else {
            proof {
                let k = choose|k: int| 0 <= k < q && ks[k] == x;
                assert forall|y: Seq<u8>| ks.contains(y) <==> ids.take(i + 1).contains(y) by {
                    if ids.take(i + 1).contains(y) {
                        let w = choose|w: int| 0 <= w < i + 1 && #[trigger] ids.take(i + 1)[w] == y;
                        if w < i {
                            assert(ids.take(i as int)[w] == y);
                            assert(ids.take(i as int).contains(y));
                        } else {
                            assert(ks[k] == y);
                        }
                        assert(ks.contains(y));
                    }
                    if ks.contains(y) {
                        assert(ids.take(i as int).contains(y));
                        let w = choose|w: int| 0 <= w < i && #[trigger] ids.take(i as int)[w] == y;
                        assert(ids.take(i + 1)[w] == y);
                    }
                }
            }
        }
        i = i + 1;
    }
    assert(ids.take(parents.len() as int) == ids);
    order
}


/// `s` before a successful rendering; an error unchanged.
pub open spec fn prepend(s: Seq<char>, r: Result<Seq<char>, AssembleError>) -> Result<Seq<char>, AssembleError> {
    match r {
        Ok(t) => Ok(s + t),
        Err(e) => Err(e),
    }
}

/// Render a model step's resolved parent context: each `(parent id, result ref)` of `parents`,
/// whose ref the store resolved to `blobs` at the same position (`None` = not in the store).
/// The parents render sorted by id, each id once (its first occurrence), so the wire order never
/// changes the result; a missing body fails closed with its ref, and a block that would take the
/// output past `cap` bytes fails closed as `Overflow`. No parents render as the empty string.
#[verifier::spinoff_prover]
pub fn assemble_from_parent_results(parents: &[([u8; 32], [u8; 32])], blobs: &[Option<Vec<u8>>], cap: usize) -> (r: Result<String, AssembleError>)
    requires
        parents.len() == blobs.len(),
        total(present_blocks(
            chosen_refs(parents@, parent_order(parent_ids(parents@))),
            chosen_bodies(parents@, blobs@, parent_order(parent_ids(parents@))),
        )) <= usize::MAX,
    ensures
        as_spec(r) == parent_rendering(parents@, blobs@, cap),
{
    let order = parent_positions(parents);
    let ghost ids = parent_ids(parents@);
    let ghost ks = order@.map_values(|k: usize| ids[k as int]);
    proof {
        lemma_parent_order(ids, ks);
    }
    let ghost rs = chosen_refs(parents@, ks);
    let ghost bs = chosen_bodies(parents@, blobs@, ks);
    let ghost pb = present_blocks(rs, bs);
    proof {
        assert forall|j: int| 0 <= j < order@.len() implies #[trigger] rs[j] == parents@[order@[j] as int].1
            && bs[j] == blobs@[order@[j] as int] by {
            lemma_first_pos(ids, order@[j] as int);
        }
        assert(Seq::<char>::empty() + concat_all(Seq::<Seq<char>>::empty()) == Seq::<char>::empty());
        assert(pb.take(0) == Seq::<Seq<char>>::empty());
        assert(rs.skip(0) == rs && bs.skip(0) == bs);
        match render_parent_blocks(rs, bs, 0, cap) {
            Ok(t) => { assert(Seq::<char>::empty() + t == t); },
            Err(_) => {},
        }
    }
    let mut out = String::new();
    let mut k: usize = 0;
    while k < order.len()
        invariant
            k <= order.len(),
            parents.len() == blobs.len(),
            rs.len() == order@.len() && bs.len() == order@.len() && pb.len() == order@.len(),
            forall|j: int| 0 <= j < order@.len() ==> #[trigger] rs[j] == parents@[order@[j] as int].1
                && bs[j] == blobs@[order@[j] as int] && order@[j] < parents.len(),
            pb == present_blocks(rs, bs),
            ids == parent_ids(parents@),
            parent_order(ids) == ks,
            rs == chosen_refs(parents@, ks),
            bs == chosen_bodies(parents@, blobs@, ks),
            total(pb) <= usize::MAX,
            out@ == concat_all(pb.take(k as int)),
            blen(out@) == total(pb.take(k as int)),
            blen(out@) <= cap,
            render_parent_blocks(rs, bs, 0, cap) == prepend(out@, render_parent_blocks(rs.skip(k as int), bs.skip(k as int), blen(out@), cap)),
        decreases order.len() - k,
    {
        let pos = order[k];
        assert(rs.skip(k as int)[0] == rs[k as int] && bs.skip(k as int)[0] == bs[k as int]);
        assert(rs.skip(k as int).drop_first() == rs.skip(k + 1) && bs.skip(k as int).drop_first() == bs.skip(k + 1));
        match &blobs[pos] {
            None => {
                proof {
                    assert(rs[k as int] == parents@[pos as int].1);
                    assert(bs.skip(k as int)[0] is None);
                    assert(render_parent_blocks(rs.skip(k as int), bs.skip(k as int), blen(out@), cap)
                        == Err::<Seq<char>, AssembleError>(AssembleError::UpstreamMissing(rs[k as int])));
                }
                return Err(AssembleError::UpstreamMissing(parents[pos].1));
            },
            Some(bytes) => {
                assert(rs[k as int] == parents@[pos as int].1);
                assert(bs.skip(k as int)[0] == Some(*bytes));
                let mut label = String::from_str("parent.");
                let short = short_label(&parents[pos].1);
                push_str(&mut label, short.as_str());
                let b = render_block(label.as_str(), bytes.as_slice());
                proof {
                    assert(pb[k as int] == b@);
                    assert(pb.take(k + 1) == pb.take(k as int).push(pb[k as int]));
                    lemma_total_push(pb.take(k as int), pb[k as int]);
                    lemma_split_at(pb, k + 1);
                    lemma_concat_blen(pb.take(k as int));
                }
                let used = out.as_str().len();
                let bl = b.as_str().len();
                if used + bl > cap {
                    proof {
                        assert(used == blen(out@) && bl == blen(b@));
                        assert(render_parent_blocks(rs.skip(k as int), bs.skip(k as int), blen(out@), cap)
                            == Err::<Seq<char>, AssembleError>(AssembleError::Overflow { needed: (used + bl) as usize, cap }));
                    }
                    return Err(AssembleError::Overflow { needed: used + bl, cap });
                }
                let ghost before = out@;
                push_str(&mut out, b.as_str());
                proof {
                    lemma_blen_concat(before, b@);
                    match render_parent_blocks(rs.skip(k + 1), bs.skip(k + 1), blen(out@), cap) {
                        Ok(t) => { assert((before + b@) + t =~= before + (b@ + t)); },
                        Err(_) => {},
                    }
                }
            },
        }
        k = k + 1;
    }
    proof {
        assert(pb.take(order@.len() as int) == pb);
        assert(rs.skip(order@.len() as int).len() == 0);
        assert(out@ + Seq::<char>::empty() == out@);
    }
    Ok(out)
}


spec fn insert_point(ks: Seq<Seq<u8>>, x: Seq<u8>, p: int) -> bool {
    0 <= p <= ks.len()
        && (forall|k: int| 0 <= k < p ==> id_lt(#[trigger] ks[k], x))
        && (forall|k: int| p <= k < ks.len() ==> id_lt(x, #[trigger] ks[k]))
}

proof fn lemma_insert_point(ks: Seq<Seq<u8>>, x: Seq<u8>)
    requires
        ids_ascending(ks),
        !ks.contains(x),
    ensures
        exists|p: int| #[trigger] insert_point(ks, x, p),
    decreases ks.len(),
{
    if ks.len() == 0 {
        assert(insert_point(ks, x, 0));
    } else {
        let l = ks.len() - 1;
        lemma_id_lt_total(ks[l], x);
        assert(ks.contains(ks[l]));
        if id_lt(ks[l], x) {
            assert forall|k: int| 0 <= k < ks.len() implies id_lt(#[trigger] ks[k], x) by {
                if k < l {
                    lemma_id_lt_transitive(ks[k], ks[l], x);
                }
            }
            assert(insert_point(ks, x, ks.len() as int));
        } else {
            let t = ks.drop_last();
            assert(ids_ascending(t)) by {
                assert forall|a: int, b: int| 0 <= a < b < t.len() implies id_lt(#[trigger] t[a], #[trigger] t[b]) by {
                    assert(t[a] == ks[a] && t[b] == ks[b]);
                }
            }
            assert(!t.contains(x)) by {
                if t.contains(x) {
                    let m = choose|m: int| 0 <= m < t.len() && t[m] == x;
                    assert(ks[m] == x);
                }
            }
            lemma_insert_point(t, x);
            let p = choose|p: int| #[trigger] insert_point(t, x, p);
            assert forall|k: int| 0 <= k < p implies id_lt(#[trigger] ks[k], x) by {
                assert(t[k] == ks[k]);
            }
            assert forall|k: int| p <= k < ks.len() implies id_lt(x, #[trigger] ks[k]) by {
                if k < l {
                    assert(t[k] == ks[k]);
                }
            }
            assert(insert_point(ks, x, p));
        }
    }
}

proof fn lemma_order_exists(ids: Seq<Seq<u8>>)
    ensures
        exists|ks: Seq<Seq<u8>>| sorted_distinct_of(ids, ks),
    decreases ids.len(),
{
    if ids.len() == 0 {
        let e = Seq::<Seq<u8>>::empty();
        assert(sorted_distinct_of(ids, e));
    } else {
        let t = ids.drop_last();
        let x = ids.last();
        lemma_order_exists(t);
        let ks = choose|ks: Seq<Seq<u8>>| sorted_distinct_of(t, ks);
        assert forall|y: Seq<u8>| ids.contains(y) <==> (t.contains(y) || y == x) by {
            if ids.contains(y) {
                let m = choose|m: int| 0 <= m < ids.len() && ids[m] == y;
                if m < ids.len() - 1 {
                    assert(t[m] == y);
                }
            }
            if t.contains(y) {
                let m = choose|m: int| 0 <= m < t.len() && t[m] == y;
                assert(ids[m] == y);
            }
            if y == x {
                assert(ids[ids.len() - 1] == y);
            }
        }
        if ks.contains(x) {
            assert(sorted_distinct_of(ids, ks));
        } else {
            lemma_insert_point(ks, x);
            let p = choose|p: int| #[trigger] insert_point(ks, x, p);
            lemma_sorted_insert(ks, p, x);
            let n = ks.insert(p, x);
            assert forall|y: Seq<u8>| n.contains(y) <==> ids.contains(y) by {
                if n.contains(y) {
                    let m = choose|m: int| 0 <= m < n.len() && n[m] == y;
                    if m < p {
                        assert(ks[m] == y);
                        assert(ks.contains(y));
                    } else if m > p {
                        assert(ks[m - 1] == y);
                        assert(ks.contains(y));
                    }
                }
                if ids.contains(y) {
                    if y == x {
                        assert(n[p] == y);
                    } else {
                        assert(t.contains(y));
                        assert(ks.contains(y));
                        let m = choose|m: int| 0 <= m < ks.len() && ks[m] == y;
                        if m < p {
                            assert(n[m] == y);
                        } else {
                            assert(n[m + 1] == y);
                        }
                    }
                }
            }
            assert(sorted_distinct_of(ids, n));
        }
    }
}

/// Every entry of `p1` (with its body) occurs in `p2`.
pub open spec fn entries_within(p1: Seq<([u8; 32], [u8; 32])>, b1: Seq<Option<Vec<u8>>>, p2: Seq<([u8; 32], [u8; 32])>, b2: Seq<Option<Vec<u8>>>) -> bool {
    forall|i: int| #![trigger p1[i]] 0 <= i < p1.len() ==> exists|j: int| #![trigger p2[j]] 0 <= j < p2.len() && p2[j] == p1[i] && b2[j] == b1[i]
}

/// Within `p`, an id names one entry (and one body).
pub open spec fn one_entry_per_id(p: Seq<([u8; 32], [u8; 32])>, b: Seq<Option<Vec<u8>>>) -> bool {
    forall|i: int, j: int| 0 <= i < p.len() && 0 <= j < p.len() && (#[trigger] p[i]).0 == (#[trigger] p[j]).0 ==> p[i] == p[j] && b[i] == b[j]
}

proof fn lemma_ids_within(p1: Seq<([u8; 32], [u8; 32])>, b1: Seq<Option<Vec<u8>>>, p2: Seq<([u8; 32], [u8; 32])>, b2: Seq<Option<Vec<u8>>>, x: Seq<u8>)
    requires
        entries_within(p1, b1, p2, b2),
        parent_ids(p1).contains(x),
    ensures
        parent_ids(p2).contains(x),
{
    let i = choose|i: int| 0 <= i < parent_ids(p1).len() && parent_ids(p1)[i] == x;
    assert(0 <= i < p1.len());
    let j = choose|j: int| 0 <= j < p2.len() && #[trigger] p2[j] == p1[i] && b2[j] == b1[i];
    assert(parent_ids(p2)[j] == x);
}

proof fn lemma_same_first_entry(p1: Seq<([u8; 32], [u8; 32])>, b1: Seq<Option<Vec<u8>>>, p2: Seq<([u8; 32], [u8; 32])>, b2: Seq<Option<Vec<u8>>>, x: Seq<u8>)
    requires
        entries_within(p1, b1, p2, b2),
        one_entry_per_id(p2, b2),
        parent_ids(p1).contains(x),
        parent_ids(p2).contains(x),
    ensures
        p1[first_pos(parent_ids(p1), x)] == p2[first_pos(parent_ids(p2), x)],
        b1[first_pos(parent_ids(p1), x)] == b2[first_pos(parent_ids(p2), x)],
{
    let ids1 = parent_ids(p1);
    let ids2 = parent_ids(p2);
    lemma_first_pos_exists(ids1, x);
    lemma_first_pos_exists(ids2, x);
    let i1 = first_pos(ids1, x);
    let i2 = first_pos(ids2, x);
    assert(0 <= i1 < p1.len());
    let j = choose|j: int| 0 <= j < p2.len() && #[trigger] p2[j] == p1[i1] && b2[j] == b1[i1];
    assert(ids2[i2] == x && ids1[i1] == x);
    assert(p2[i2].0@ == p2[j].0@);
    assert(p2[i2].0 == p2[j].0);
}

/// The parent context depends only on which entries were sent, never on their wire order or on
/// how often an entry repeats: two parent lists that hold the same `(id, ref)` entries with the
/// same resolved bodies (each id naming one entry within a list) render identically.
pub proof fn law_parent_rendering_ignores_wire_order(
    p1: Seq<([u8; 32], [u8; 32])>,
    b1: Seq<Option<Vec<u8>>>,
    p2: Seq<([u8; 32], [u8; 32])>,
    b2: Seq<Option<Vec<u8>>>,
    cap: usize,
)
    requires
        p1.len() == b1.len(),
        p2.len() == b2.len(),
        entries_within(p1, b1, p2, b2),
        entries_within(p2, b2, p1, b1),
        one_entry_per_id(p1, b1),
        one_entry_per_id(p2, b2),
    ensures
        parent_rendering(p1, b1, cap) == parent_rendering(p2, b2, cap),
{
    let ids1 = parent_ids(p1);
    let ids2 = parent_ids(p2);
    assert forall|x: Seq<u8>| ids1.contains(x) <==> ids2.contains(x) by {
        if ids1.contains(x) {
            lemma_ids_within(p1, b1, p2, b2, x);
        }
        if ids2.contains(x) {
            lemma_ids_within(p2, b2, p1, b1, x);
        }
    }
    lemma_order_exists(ids1);
    let ks = parent_order(ids1);
    assert(sorted_distinct_of(ids1, ks));
    assert(sorted_distinct_of(ids2, ks));
    lemma_parent_order(ids2, ks);
    assert forall|m: int| 0 <= m < ks.len() implies
        p1[first_pos(ids1, #[trigger] ks[m])] == p2[first_pos(ids2, ks[m])]
        && b1[first_pos(ids1, ks[m])] == b2[first_pos(ids2, ks[m])] by {
        assert(ks.contains(ks[m]));
        lemma_same_first_entry(p1, b1, p2, b2, ks[m]);
    }
    assert(chosen_refs(p1, ks) =~= chosen_refs(p2, ks));
    assert(chosen_bodies(p1, b1, ks) =~= chosen_bodies(p2, b2, ks));
}


proof fn lemma_render_within_cap(rs: Seq<[u8; 32]>, bodies: Seq<Option<Vec<u8>>>, used: nat, cap: usize)
    requires
        used <= cap,
    ensures
        render_parent_blocks(rs, bodies, used, cap) matches Ok(t) ==> used + blen(t) <= cap,
    decreases rs.len(),
{
    if rs.len() > 0 && bodies.len() > 0 {
        if let Some(b) = bodies[0] {
            let blk = parent_block(rs[0]@, b@);
            let need = used + blen(blk);
            if need <= cap {
                lemma_render_within_cap(rs.drop_first(), bodies.drop_first(), need, cap);
                if let Ok(t) = render_parent_blocks(rs.drop_first(), bodies.drop_first(), need, cap) {
                    lemma_blen_concat(blk, t);
                }
            }
        }
    } else {
        assert(blen(Seq::<char>::empty()) == 0) by {
            assert(encode_utf8(Seq::<char>::empty()) =~= Seq::<u8>::empty()) by {
                lemma_blen_concat(Seq::<char>::empty(), Seq::<char>::empty());
            }
        }
    }
}

/// Rendered parent context never exceeds the window cap: whatever does not fit fails closed.
pub proof fn law_parent_rendering_within_cap(parents: Seq<([u8; 32], [u8; 32])>, blobs: Seq<Option<Vec<u8>>>, cap: usize)
    ensures
        parent_rendering(parents, blobs, cap) matches Ok(s) ==> blen(s) <= cap,
{
    let ks = parent_order(parent_ids(parents));
    lemma_render_within_cap(chosen_refs(parents, ks), chosen_bodies(parents, blobs, ks), 0, cap);
}

impl AssembleError {
    /// The error's text.
    pub fn message(&self) -> (r: String)
        ensures
            r@ == (match *self {
                AssembleError::UpstreamMissing(c) => "F-7 upstream context "@ + hex_lower_spec(c@) + " not resolvable in store"@,
                AssembleError::Overflow { needed, cap } => "F-7 context "@ + decimal(needed as nat) + "B exceeds window cap "@ + decimal(cap as nat) + "B"@,
            }),
    {
        match self {
            AssembleError::UpstreamMissing(c) => {
                let mut m = String::from_str("F-7 upstream context ");
                let h = hex_lower(c);
                push_str(&mut m, h.as_str());
                push_str(&mut m, " not resolvable in store");
                m
            },
            AssembleError::Overflow { needed, cap } => {
                let mut m = String::from_str("F-7 context ");
                push_decimal(&mut m, *needed as u64);
                push_str(&mut m, "B exceeds window cap ");
                push_decimal(&mut m, *cap as u64);
                push_str(&mut m, "B");
                m
            },
        }
    }
}

} // verus!
