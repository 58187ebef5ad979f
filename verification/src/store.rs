//! The relay collection as it is saved: duplicates merged, dead relays left
//! out, per-protocol subsets and totals.
use crate::parser::{_kind, _relay, relays_view, RelayView};
use vstd::prelude::*;

verus! {

// ---------------------------------------------------------------------------
// Identity of a relay
// ---------------------------------------------------------------------------

/// Two relays are the same relay when protocol, host and port agree.
pub type RelayKey = (_kind, Seq<char>, u16);

pub open spec fn key_of(r: RelayView) -> RelayKey {
    (r.kind, r.addr, r.port)
}

pub open spec fn is_alive(r: RelayView) -> bool {
    r.alive == Some(true)
}

pub open spec fn has_key(s: Seq<RelayView>, k: RelayKey) -> bool {
    exists|i: int| 0 <= i < s.len() && key_of(s[i]) == k
}

/// `i` is the first position of a relay with key `k`.
pub open spec fn is_first_key(s: Seq<RelayView>, k: RelayKey, i: int) -> bool {
    &&& 0 <= i < s.len()
    &&& key_of(s[i]) == k
    &&& forall|j: int| 0 <= j < i ==> key_of(#[trigger] s[j]) != k
}

pub open spec fn first_key_pos(s: Seq<RelayView>, k: RelayKey) -> int {
    choose|i: int| is_first_key(s, k, i)
}

pub open spec fn has_alive(s: Seq<RelayView>, k: RelayKey) -> bool {
    exists|i: int| 0 <= i < s.len() && key_of(s[i]) == k && is_alive(s[i])
}

/// `i` is the first position of a live relay with key `k`.
pub open spec fn is_first_alive(s: Seq<RelayView>, k: RelayKey, i: int) -> bool {
    &&& 0 <= i < s.len()
    &&& key_of(s[i]) == k
    &&& is_alive(s[i])
    &&& forall|j: int| 0 <= j < i ==> !(key_of(#[trigger] s[j]) == k && is_alive(s[j]))
}

/// The relay that stands for key `k` after merging: the first one known to
/// be alive, or else the first one.
pub open spec fn kept_for_key(s: Seq<RelayView>, k: RelayKey) -> RelayView {
    if has_alive(s, k) {
        s[choose|i: int| is_first_alive(s, k, i)]
    } else {
        s[first_key_pos(s, k)]
    }
}

/// `out` is `s` with duplicates merged: one relay per key, in the order in
/// which the keys first occur, each the relay that `kept_for_key` picks.
pub open spec fn is_dedupe_of(out: Seq<RelayView>, s: Seq<RelayView>) -> bool {
    &&& forall|i: int, j: int|
        #![trigger out[i], out[j]]
        0 <= i < j < out.len() ==> first_key_pos(s, key_of(out[i])) < first_key_pos(
            s,
            key_of(out[j]),
        )
    &&& forall|i: int| 0 <= i < s.len() ==> has_key(out, key_of(#[trigger] s[i]))
    &&& forall|j: int|
        0 <= j < out.len() ==> has_key(s, key_of(#[trigger] out[j])) && out[j] == kept_for_key(
            s,
            key_of(out[j]),
        )
}

// ---------------------------------------------------------------------------
// Lemmas on first positions
// ---------------------------------------------------------------------------

proof fn lemma_first_key_exists(s: Seq<RelayView>, k: RelayKey, i: int)
    requires
        0 <= i < s.len(),
        key_of(s[i]) == k,
    ensures
        exists|f: int| is_first_key(s, k, f),
    decreases i,
{
    if exists|j: int| 0 <= j < i && key_of(s[j]) == k {
        let j = choose|j: int| 0 <= j < i && key_of(s[j]) == k;
        lemma_first_key_exists(s, k, j);
    } else {
        assert(is_first_key(s, k, i));
    }
}

proof fn lemma_first_key_unique(s: Seq<RelayView>, k: RelayKey, i: int)
    requires
        is_first_key(s, k, i),
    ensures
        first_key_pos(s, k) == i,
{
    let f = first_key_pos(s, k);
    assert(is_first_key(s, k, f));
    if f < i {
        assert(key_of(s[f]) != k);
    }
    if i < f {
        assert(key_of(s[i]) != k);
    }
}

proof fn lemma_first_key(s: Seq<RelayView>, k: RelayKey)
    requires
        has_key(s, k),
    ensures
        is_first_key(s, k, first_key_pos(s, k)),
{
    let i = choose|i: int| 0 <= i < s.len() && key_of(s[i]) == k;
    lemma_first_key_exists(s, k, i);
}

proof fn lemma_first_alive_exists(s: Seq<RelayView>, k: RelayKey, i: int)
    requires
        0 <= i < s.len(),
        key_of(s[i]) == k,
        is_alive(s[i]),
    ensures
        exists|f: int| is_first_alive(s, k, f),
    decreases i,
{
    if exists|j: int| 0 <= j < i && key_of(s[j]) == k && is_alive(s[j]) {
        let j = choose|j: int| 0 <= j < i && key_of(s[j]) == k && is_alive(s[j]);
        lemma_first_alive_exists(s, k, j);
    } else {
        assert(is_first_alive(s, k, i));
    }
}

proof fn lemma_first_alive_unique(s: Seq<RelayView>, k: RelayKey, i: int)
    requires
        is_first_alive(s, k, i),
    ensures
        (choose|f: int| is_first_alive(s, k, f)) == i,
{
    let f = choose|f: int| is_first_alive(s, k, f);
    assert(is_first_alive(s, k, f));
    if f < i {
        assert(!(key_of(s[f]) == k && is_alive(s[f])));
    }
    if i < f {
        assert(!(key_of(s[i]) == k && is_alive(s[i])));
    }
}

/// The kept relay has the key it stands for, and is alive exactly when
/// some relay with that key is.
proof fn lemma_kept(s: Seq<RelayView>, k: RelayKey)
    requires
        has_key(s, k),
    ensures
        key_of(kept_for_key(s, k)) == k,
        is_alive(kept_for_key(s, k)) <==> has_alive(s, k),
        s.contains(kept_for_key(s, k)),
{
    lemma_first_key(s, k);
    if has_alive(s, k) {
        let i = choose|i: int| 0 <= i < s.len() && key_of(s[i]) == k && is_alive(s[i]);
        lemma_first_alive_exists(s, k, i);
        let f = choose|f: int| is_first_alive(s, k, f);
        assert(is_first_alive(s, k, f));
        assert(s[f] == kept_for_key(s, k));
    } else {
        let f = first_key_pos(s, k);
        assert(s[f] == kept_for_key(s, k));
        assert(!is_alive(s[f]));
    }
}

/// Appending a relay keeps the first position of every key already there.
proof fn lemma_push_first_key(s: Seq<RelayView>, r: RelayView, k: RelayKey)
    requires
        has_key(s, k),
    ensures
        has_key(s.push(r), k),
        first_key_pos(s.push(r), k) == first_key_pos(s, k),
{
    lemma_first_key(s, k);
    let f = first_key_pos(s, k);
    let t = s.push(r);
    assert(t[f] == s[f]);
    assert(is_first_key(t, k, f)) by {
        assert forall|j: int| 0 <= j < f implies key_of(#[trigger] t[j]) != k by {
            assert(t[j] == s[j]);
        }
    }
    lemma_first_key_unique(t, k, f);
}

/// Appending a relay with a new key puts that key's first position last.
proof fn lemma_push_new_key(s: Seq<RelayView>, r: RelayView)
    requires
        !has_key(s, key_of(r)),
    ensures
        has_key(s.push(r), key_of(r)),
        first_key_pos(s.push(r), key_of(r)) == s.len(),
        kept_for_key(s.push(r), key_of(r)) == r,
{
    let t = s.push(r);
    let k = key_of(r);
    assert(t[s.len() as int] == r);
    assert(is_first_key(t, k, s.len() as int)) by {
        assert forall|j: int| 0 <= j < s.len() implies key_of(#[trigger] t[j]) != k by {
            assert(t[j] == s[j]);
        }
    }
    lemma_first_key_unique(t, k, s.len() as int);
    if is_alive(r) {
        assert(is_first_alive(t, k, s.len() as int)) by {
            assert forall|j: int| 0 <= j < s.len() implies !(key_of(#[trigger] t[j]) == k
                && is_alive(t[j])) by {
                assert(t[j] == s[j]);
            }
        }
        lemma_first_alive_unique(t, k, s.len() as int);
    } else {
        assert(!has_alive(t, k)) by {
            if has_alive(t, k) {
                let i = choose|i: int| 0 <= i < t.len() && key_of(t[i]) == k && is_alive(t[i]);
                if i < s.len() {
                    assert(t[i] == s[i]);
                }
            }
        }
    }
}

/// Appending a relay: what the kept relay of a key already present becomes.
proof fn lemma_push_kept(s: Seq<RelayView>, r: RelayView, k: RelayKey)
    requires
        has_key(s, k),
    ensures
        kept_for_key(s.push(r), k) == (if key_of(r) == k && !has_alive(s, k) && is_alive(r) {
            r
        } else {
            kept_for_key(s, k)
        }),
{
    let t = s.push(r);
    lemma_push_first_key(s, r, k);
    lemma_first_key(s, k);
    let f = first_key_pos(s, k);
    assert(t[f] == s[f]);
    if has_alive(s, k) {
        let i = choose|i: int| 0 <= i < s.len() && key_of(s[i]) == k && is_alive(s[i]);
        lemma_first_alive_exists(s, k, i);
        let a = choose|a: int| is_first_alive(s, k, a);
        assert(is_first_alive(s, k, a));
        assert(t[a] == s[a]);
        assert(is_first_alive(t, k, a)) by {
            assert forall|j: int| 0 <= j < a implies !(key_of(#[trigger] t[j]) == k && is_alive(
                t[j],
            )) by {
                assert(t[j] == s[j]);
            }
        }
        lemma_first_alive_unique(t, k, a);
        assert(has_alive(t, k));
    } else if key_of(r) == k && is_alive(r) {
        let n = s.len() as int;
        assert(t[n] == r);
        assert(is_first_alive(t, k, n)) by {
            assert forall|j: int| 0 <= j < n implies !(key_of(#[trigger] t[j]) == k && is_alive(
                t[j],
            )) by {
                assert(t[j] == s[j]);
                if key_of(s[j]) == k && is_alive(s[j]) {
                    assert(has_alive(s, k));
                }
            }
        }
        lemma_first_alive_unique(t, k, n);
    } else {
        assert(!has_alive(t, k)) by {
            if has_alive(t, k) {
                let i = choose|i: int| 0 <= i < t.len() && key_of(t[i]) == k && is_alive(t[i]);
                if i < s.len() {
                    assert(t[i] == s[i]);
                    assert(has_alive(s, k));
                }
            }
        }
    }
}

// ---------------------------------------------------------------------------
// Merging duplicates
// ---------------------------------------------------------------------------

/// One step of merging: `r` joins a merged prefix.
proof fn lemma_dedupe_step(out: Seq<RelayView>, s: Seq<RelayView>, r: RelayView, j: int)
    requires
        is_dedupe_of(out, s),
        j == -1 ==> forall|i: int| 0 <= i < out.len() ==> key_of(out[i]) != key_of(r),
        j != -1 ==> 0 <= j < out.len() && key_of(out[j]) == key_of(r),
    ensures
        j == -1 ==> is_dedupe_of(out.push(r), s.push(r)),
        j != -1 && is_alive(r) && !is_alive(out[j]) ==> is_dedupe_of(out.update(j, r), s.push(r)),
        j != -1 && !(is_alive(r) && !is_alive(out[j])) ==> is_dedupe_of(out, s.push(r)),
{
    let t = s.push(r);
    let k = key_of(r);
    assert forall|i: int| 0 <= i < out.len() implies has_key(t, key_of(#[trigger] out[i]))
        && first_key_pos(t, key_of(out[i])) == first_key_pos(s, key_of(out[i])) by {
        lemma_push_first_key(s, r, key_of(out[i]));
    }
    if j == -1 {
        assert(!has_key(s, k)) by {
            if has_key(s, k) {
                let i = choose|i: int| 0 <= i < s.len() && key_of(s[i]) == k;
                let jj = choose|jj: int| 0 <= jj < out.len() && key_of(out[jj]) == key_of(s[i]);
                assert(key_of(out[jj]) == k);
            }
        }
        lemma_push_new_key(s, r);
        let o = out.push(r);
        assert forall|a: int, b: int| #![trigger o[a], o[b]] 0 <= a < b < o.len() implies first_key_pos(
            t,
            key_of(o[a]),
        ) < first_key_pos(t, key_of(o[b])) by {
            assert(o[a] == out[a]);
            lemma_first_key(s, key_of(out[a]));
            if b < out.len() {
                assert(o[b] == out[b]);
            }
        }
        assert forall|i: int| #![trigger t[i]] 0 <= i < t.len() implies exists|jj: int|
            0 <= jj < o.len() && key_of(#[trigger] o[jj]) == key_of(t[i]) by {
            if i < s.len() {
                assert(t[i] == s[i]);
                let jj = choose|jj: int| 0 <= jj < out.len() && key_of(out[jj]) == key_of(s[i]);
                assert(o[jj] == out[jj]);
            } else {
                assert(o[out.len() as int] == r);
            }
        }
        assert forall|jj: int| 0 <= jj < o.len() implies has_key(t, key_of(#[trigger] o[jj]))
            && o[jj] == kept_for_key(t, key_of(o[jj])) by {
            if jj < out.len() {
                assert(o[jj] == out[jj]);
                lemma_push_kept(s, r, key_of(out[jj]));
            }
        }
    } else {
        lemma_push_kept(s, r, k);
        lemma_kept(s, k);
        assert forall|jj: int| 0 <= jj < out.len() && jj != j implies kept_for_key(
            t,
            key_of(#[trigger] out[jj]),
        ) == kept_for_key(s, key_of(out[jj])) by {
            lemma_push_kept(s, r, key_of(out[jj]));
            assert(first_key_pos(s, key_of(out[jj])) != first_key_pos(s, key_of(out[j])) || jj
                == j) by {
                if jj < j {
                } else if j < jj {
                }
            }
        }
        if is_alive(r) && !is_alive(out[j]) {
            let o = out.update(j, r);
            assert forall|a: int, b: int| #![trigger o[a], o[b]] 0 <= a < b < o.len() implies first_key_pos(
                t,
                key_of(o[a]),
            ) < first_key_pos(t, key_of(o[b])) by {
                assert(key_of(o[a]) == key_of(out[a]));
                assert(key_of(o[b]) == key_of(out[b]));
                assert(first_key_pos(s, key_of(out[a])) < first_key_pos(s, key_of(out[b])));
            }
            assert forall|i: int| #![trigger t[i]] 0 <= i < t.len() implies exists|jj: int|
                0 <= jj < o.len() && key_of(#[trigger] o[jj]) == key_of(t[i]) by {
                if i < s.len() {
                    assert(t[i] == s[i]);
                    let jj = choose|jj: int|
                        0 <= jj < out.len() && key_of(out[jj]) == key_of(s[i]);
                    assert(key_of(o[jj]) == key_of(out[jj]));
                } else {
                    assert(key_of(o[j]) == k);
                }
            }
            assert forall|jj: int| 0 <= jj < o.len() implies has_key(t, key_of(#[trigger] o[jj]))
                && o[jj] == kept_for_key(t, key_of(o[jj])) by {
                if jj != j {
                    assert(o[jj] == out[jj]);
                } else {
                    assert(o[jj] == r);
                }
            }
        } else {
            assert forall|a: int, b: int| #![trigger out[a], out[b]] 0 <= a < b < out.len() implies first_key_pos(
                t,
                key_of(out[a]),
            ) < first_key_pos(t, key_of(out[b])) by {
                assert(first_key_pos(s, key_of(out[a])) < first_key_pos(s, key_of(out[b])));
            }
            assert forall|i: int| #![trigger t[i]] 0 <= i < t.len() implies exists|jj: int|
                0 <= jj < out.len() && key_of(#[trigger] out[jj]) == key_of(t[i]) by {
                if i < s.len() {
                    assert(t[i] == s[i]);
                } else {
                    assert(key_of(out[j]) == key_of(t[i]));
                }
            }
        }
    }
}

/// The position in `out` of the relay with the same key as `r`.
fn find_same(out: &Vec<_relay>, r: &_relay) -> (res: Option<usize>)
    ensures
        match res {
            Some(j) => j < out@.len() && key_of(out@[j as int]@) == key_of(r@),
            None => forall|i: int| 0 <= i < out@.len() ==> key_of(out@[i]@) != key_of(r@),
        },
{
    let mut i: usize = 0;
    while i < out.len()
        invariant
            i <= out@.len(),
            forall|j: int| 0 <= j < i ==> key_of(out@[j]@) != key_of(r@),
        decreases out.len() - i,
    {
        if out[i]._kind == r._kind && out[i]._port == r._port && out[i]._addr == r._addr {
            return Some(i);
        }
        i = i + 1;
    }
    None
}

/// Merges relays that share protocol, host and port: one relay per key, in
/// the order in which keys first occur; a relay known to be alive wins over
/// one that is not, and otherwise the first one stays.
pub fn __dedupe(relays: Vec<_relay>) -> (r: Vec<_relay>)
    ensures
        is_dedupe_of(relays_view(r@), relays_view(relays@)),
{
    let ghost input = relays_view(relays@);
    let mut out: Vec<_relay> = Vec::new();
    let n = relays.len();
    let mut rest = relays;
    let mut reversed: Vec<_relay> = Vec::new();
    // Take the relays out back to front, then hand them on front to back.
    while rest.len() > 0
        invariant
            rest@.len() + reversed@.len() == n,
            input == relays_view(rest@ + reversed@.reverse()),
        decreases rest@.len(),
    {
        let ghost before_rest = rest@;
        let ghost before_rev = reversed@;
        let x = rest.pop().unwrap();
        reversed.push(x);
        proof {
            assert(before_rest == rest@.push(x));
            assert(reversed@.reverse() =~= seq![x] + before_rev.reverse());
            assert(rest@ + reversed@.reverse() =~= before_rest + before_rev.reverse());
        }
    }
    proof {
        assert(rest@ + reversed@.reverse() =~= reversed@.reverse());
        assert(input.skip(0) =~= input);
        assert(is_dedupe_of(relays_view(out@), input.take(0)));
    }
    let mut i: usize = 0;
    while reversed.len() > 0
        invariant
            i + reversed@.len() == n,
            input.len() == n,
            input.skip(i as int) == relays_view(reversed@.reverse()),
            is_dedupe_of(relays_view(out@), input.take(i as int)),
        decreases reversed@.len(),
    {
        let ghost before_rev = reversed@;
        let x = reversed.pop().unwrap();
        proof {
            assert(before_rev == reversed@.push(x));
            assert(before_rev.reverse() =~= seq![x] + reversed@.reverse());
            assert(relays_view(before_rev.reverse())[0] == x@);
            assert(input[i as int] == x@);
            assert(input.take(i + 1) =~= input.take(i as int).push(x@));
            assert(relays_view(before_rev.reverse()) =~= seq![x@] + relays_view(
                reversed@.reverse(),
            ));
            assert(input.skip(i + 1) =~= input.skip(i as int).skip(1));
            assert(input.skip(i + 1) =~= relays_view(reversed@.reverse()));
        }
        let ghost ov = relays_view(out@);
        match find_same(&out, &x) {
            None => {
                proof {
                    lemma_dedupe_step(ov, input.take(i as int), x@, -1);
                }
                out.push(x);
                proof {
                    assert(relays_view(out@) =~= ov.push(x@));
                }
            },
            Some(j) => {
                proof {
                    lemma_dedupe_step(ov, input.take(i as int), x@, j as int);
                }
                if x.alive == Some(true) && out[j].alive != Some(true) {
                    out.set(j, x);
                    proof {
                        assert(relays_view(out@) =~= ov.update(j as int, x@));
                    }
                }
            },
        }
        i = i + 1;
    }
    proof {
        assert(input.take(n as int) =~= input);
    }
    out
}

// ---------------------------------------------------------------------------
// What is saved
// ---------------------------------------------------------------------------

/// The relays that saving keeps: all but those known to be dead, in order.
pub open spec fn saved_relays(s: Seq<RelayView>) -> Seq<RelayView> {
    s.filter(|v: RelayView| v.alive != Some(false))
}

/// The relays of one protocol, in order.
pub open spec fn relays_of_kind(s: Seq<RelayView>, kind: _kind) -> Seq<RelayView> {
    s.filter(|v: RelayView| v.kind == kind)
}

/// How many relays are known to be alive.
pub open spec fn alive_total(s: Seq<RelayView>) -> nat {
    s.filter(|v: RelayView| v.alive == Some(true)).len()
}

/// The relays that saving keeps: all but those known to be dead.
pub fn kept_for_save(relays: &Vec<_relay>) -> (r: Vec<_relay>)
    ensures
        relays_view(r@) == saved_relays(relays_view(relays@)),
{
    let ghost s = relays_view(relays@);
    let mut out: Vec<_relay> = Vec::new();
    let n = relays.len();
    for i in 0..n
        invariant
            n == relays@.len(),
            s == relays_view(relays@),
            relays_view(out@) == saved_relays(s.take(i as int)),
    {
        let ghost before = out@;
        proof {
            reveal(Seq::filter);
            assert(s.take(i + 1).drop_last() =~= s.take(i as int));
            assert(s.take(i + 1).last() == relays@[i as int]@);
        }
        let keep = match relays[i].alive {
            Some(false) => false,
            _ => true,
        };
        if keep {
            let c = relays[i].duplicate();
            out.push(c);
            proof {
                assert(relays_view(out@) =~= relays_view(before).push(c@));
            }
        }
    }
    proof {
        assert(s.take(n as int) =~= s);
    }
    out
}

/// The relays of one protocol.
pub fn of_kind(relays: &Vec<_relay>, kind: _kind) -> (r: Vec<_relay>)
    ensures
        relays_view(r@) == relays_of_kind(relays_view(relays@), kind),
{
    let ghost s = relays_view(relays@);
    let mut out: Vec<_relay> = Vec::new();
    let n = relays.len();
    for i in 0..n
        invariant
            n == relays@.len(),
            s == relays_view(relays@),
            relays_view(out@) == relays_of_kind(s.take(i as int), kind),
    {
        let ghost before = out@;
        proof {
            reveal(Seq::filter);
            assert(s.take(i + 1).drop_last() =~= s.take(i as int));
            assert(s.take(i + 1).last() == relays@[i as int]@);
        }
        if relays[i]._kind == kind {
            let c = relays[i].duplicate();
            out.push(c);
            proof {
                assert(relays_view(out@) =~= relays_view(before).push(c@));
            }
        }
    }
    proof {
        assert(s.take(n as int) =~= s);
    }
    out
}

/// How many relays are known to be alive.
pub fn alive_count(relays: &Vec<_relay>) -> (r: usize)
    ensures
        r == alive_total(relays_view(relays@)),
{
    let ghost s = relays_view(relays@);
    let mut count: usize = 0;
    let n = relays.len();
    for i in 0..n
        invariant
            n == relays@.len(),
            s == relays_view(relays@),
            count == alive_total(s.take(i as int)),
            count <= i,
    {
        proof {
            reveal(Seq::filter);
            assert(s.take(i + 1).drop_last() =~= s.take(i as int));
            assert(s.take(i + 1).last() == relays@[i as int]@);
        }
        let alive = match relays[i].alive {
            Some(true) => true,
            _ => false,
        };
        if alive {
            count = count + 1;
        }
    }
    proof {
        assert(s.take(n as int) =~= s);
    }
    count
}

// ---------------------------------------------------------------------------
// Laws
// ---------------------------------------------------------------------------

/// After merging, no two relays share protocol, host and port.
pub proof fn law_dedupe_distinct(out: Seq<RelayView>, s: Seq<RelayView>)
    requires
        is_dedupe_of(out, s),
    ensures
        forall|i: int, j: int|
            #![trigger out[i], out[j]]
            0 <= i < j < out.len() ==> key_of(out[i]) != key_of(out[j]),
{
    assert forall|i: int, j: int| #![trigger out[i], out[j]] 0 <= i < j < out.len() implies key_of(
        out[i],
    ) != key_of(out[j]) by {
        assert(first_key_pos(s, key_of(out[i])) < first_key_pos(s, key_of(out[j])));
    }
}

/// Merging only keeps relays it was given, and a relay known to be alive is
/// never dropped for a duplicate that is not.
pub proof fn law_dedupe_keeps_members(out: Seq<RelayView>, s: Seq<RelayView>, j: int)
    requires
        is_dedupe_of(out, s),
        0 <= j < out.len(),
    ensures
        s.contains(out[j]),
        has_alive(s, key_of(out[j])) ==> is_alive(out[j]),
{
    lemma_kept(s, key_of(out[j]));
}

/// Merging keeps, for each protocol, host and port, the first relay known
/// to be alive, or the first relay where none is known to be alive.
pub proof fn law_dedupe_picks(out: Seq<RelayView>, s: Seq<RelayView>, j: int)
    requires
        is_dedupe_of(out, s),
        0 <= j < s.len(),
    ensures
        (forall|i: int| 0 <= i < s.len() && key_of(#[trigger] s[i]) == key_of(s[j]) ==> !is_alive(s[i]))
            && (forall|i: int| 0 <= i < j ==> key_of(#[trigger] s[i]) != key_of(s[j]))
            ==> out.contains(s[j]),
        is_alive(s[j]) && (forall|i: int|
            0 <= i < j && key_of(#[trigger] s[i]) == key_of(s[j]) ==> !is_alive(s[i]))
            ==> out.contains(s[j]),
{
    let k = key_of(s[j]);
    assert(has_key(out, k));
    let o = choose|o: int| 0 <= o < out.len() && key_of(out[o]) == k;
    assert(out[o] == kept_for_key(s, k));
    if (forall|i: int| 0 <= i < s.len() && key_of(#[trigger] s[i]) == k ==> !is_alive(s[i])) && (
    forall|i: int| 0 <= i < j ==> key_of(#[trigger] s[i]) != k) {
        assert(!has_alive(s, k));
        assert(is_first_key(s, k, j));
        lemma_first_key_unique(s, k, j);
        assert(out[o] == s[j]);
    }
    if is_alive(s[j]) && (forall|i: int|
        0 <= i < j && key_of(#[trigger] s[i]) == k ==> !is_alive(s[i])) {
        assert(has_alive(s, k));
        assert(is_first_alive(s, k, j));
        lemma_first_alive_unique(s, k, j);
        assert(out[o] == s[j]);
    }
}

/// Merging keeps relays in the order in which their protocol, host and port
/// first occur: the key of an earlier merged relay occurs before every
/// occurrence of the key of a later one.
pub proof fn law_dedupe_order(out: Seq<RelayView>, s: Seq<RelayView>, a: int, b: int)
    requires
        is_dedupe_of(out, s),
        0 <= a < b < out.len(),
    ensures
        exists|i: int|
            0 <= i < s.len() && key_of(s[i]) == key_of(out[a]) && forall|i2: int|
                0 <= i2 < s.len() && key_of(#[trigger] s[i2]) == key_of(out[b]) ==> i < i2,
{
    let ka = key_of(out[a]);
    let kb = key_of(out[b]);
    lemma_first_key(s, ka);
    lemma_first_key(s, kb);
    let i = first_key_pos(s, ka);
    assert(first_key_pos(s, ka) < first_key_pos(s, kb));
    assert forall|i2: int| 0 <= i2 < s.len() && key_of(#[trigger] s[i2]) == kb implies i < i2 by {
        if i2 < first_key_pos(s, kb) {
            assert(key_of(s[i2]) != kb);
        }
    }
}

/// Two merges of the same relays agree.
proof fn lemma_dedupe_unique(a: Seq<RelayView>, b: Seq<RelayView>, s: Seq<RelayView>)
    requires
        is_dedupe_of(a, s),
        is_dedupe_of(b, s),
    ensures
        a == b,
{
    law_dedupe_distinct(a, s);
    law_dedupe_distinct(b, s);
    let m = if a.len() < b.len() {
        a.len()
    } else {
        b.len()
    };
    lemma_dedupe_prefix(a, b, s, m as int);
    if a.len() > b.len() {
        let i = b.len() as int;
        lemma_kept(s, key_of(a[i]));
        let x = choose|x: int| 0 <= x < s.len() && s[x] == kept_for_key(s, key_of(a[i]));
        let p = choose|p: int| 0 <= p < b.len() && key_of(b[p]) == key_of(s[x]);
        assert(a.take(i)[p] == b.take(i)[p]);
        assert(key_of(a[p]) == key_of(a[i]));
    } else if b.len() > a.len() {
        let i = a.len() as int;
        lemma_kept(s, key_of(b[i]));
        let x = choose|x: int| 0 <= x < s.len() && s[x] == kept_for_key(s, key_of(b[i]));
        let p = choose|p: int| 0 <= p < a.len() && key_of(a[p]) == key_of(s[x]);
        assert(a.take(i)[p] == b.take(i)[p]);
        assert(key_of(b[p]) == key_of(b[i]));
    } else {
        assert(a.take(m as int) =~= a);
        assert(b.take(m as int) =~= b);
    }
}

proof fn lemma_dedupe_prefix(a: Seq<RelayView>, b: Seq<RelayView>, s: Seq<RelayView>, n: int)
    requires
        is_dedupe_of(a, s),
        is_dedupe_of(b, s),
        0 <= n <= a.len(),
        n <= b.len(),
    ensures
        a.take(n) == b.take(n),
    decreases n,
{
    if n > 0 {
        let i = n - 1;
        lemma_dedupe_prefix(a, b, s, i);
        law_dedupe_distinct(a, s);
        law_dedupe_distinct(b, s);
        let ka = key_of(a[i]);
        let kb = key_of(b[i]);
        // where a's key sits in b, and b's key in a
        lemma_kept(s, ka);
        let xa = choose|x: int| 0 <= x < s.len() && s[x] == kept_for_key(s, ka);
        let p = choose|p: int| 0 <= p < b.len() && key_of(b[p]) == key_of(s[xa]);
        lemma_kept(s, kb);
        let xb = choose|x: int| 0 <= x < s.len() && s[x] == kept_for_key(s, kb);
        let q = choose|q: int| 0 <= q < a.len() && key_of(a[q]) == key_of(s[xb]);
        if p < i {
            assert(a.take(i)[p] == b.take(i)[p]);
            assert(key_of(a[p]) == ka);
        }
        if q < i {
            assert(a.take(i)[q] == b.take(i)[q]);
            assert(key_of(b[q]) == kb);
        }
        if ka != kb {
            if p == i {
            } else if q == i {
            } else {
                assert(first_key_pos(s, key_of(a[i])) < first_key_pos(s, key_of(a[q])));
                assert(first_key_pos(s, key_of(b[i])) < first_key_pos(s, key_of(b[p])));
            }
        }
        assert(a[i] == b[i]);
        assert(a.take(n) =~= a.take(i).push(a[i]));
        assert(b.take(n) =~= b.take(i).push(b[i]));
    }
}

pub open spec fn distinct_keys(out: Seq<RelayView>) -> bool {
    forall|i: int, j: int|
        #![trigger out[i], out[j]]
        0 <= i < j < out.len() ==> key_of(out[i]) != key_of(out[j])
}

proof fn lemma_distinct_self(out: Seq<RelayView>, i: int)
    requires
        distinct_keys(out),
        0 <= i < out.len(),
    ensures
        first_key_pos(out, key_of(out[i])) == i,
        has_key(out, key_of(out[i])),
        out[i] == kept_for_key(out, key_of(out[i])),
{
    let k = key_of(out[i]);
    assert(is_first_key(out, k, i)) by {
        assert forall|j: int| 0 <= j < i implies key_of(#[trigger] out[j]) != k by {
            assert(key_of(out[j]) != key_of(out[i]));
        }
    }
    lemma_first_key_unique(out, k, i);
    if has_alive(out, k) {
        let a = choose|a: int| 0 <= a < out.len() && key_of(out[a]) == k && is_alive(out[a]);
        if a < i {
            assert(key_of(out[a]) != key_of(out[i]));
        } else if i < a {
            assert(key_of(out[i]) != key_of(out[a]));
        }
        assert(is_first_alive(out, k, i)) by {
            assert forall|j: int| 0 <= j < i implies !(key_of(#[trigger] out[j]) == k && is_alive(
                out[j],
            )) by {
                assert(key_of(out[j]) != key_of(out[i]));
            }
        }
        lemma_first_alive_unique(out, k, i);
    }
}

/// A merged list is its own merge.
proof fn lemma_dedupe_of_itself(out: Seq<RelayView>, s: Seq<RelayView>)
    requires
        is_dedupe_of(out, s),
    ensures
        is_dedupe_of(out, out),
{
    law_dedupe_distinct(out, s);
    assert(distinct_keys(out));
    assert forall|i: int, j: int| #![trigger out[i], out[j]] 0 <= i < j < out.len() implies first_key_pos(
        out,
        key_of(out[i]),
    ) < first_key_pos(out, key_of(out[j])) by {
        lemma_distinct_self(out, i);
        lemma_distinct_self(out, j);
    }
    assert forall|i: int| 0 <= i < out.len() implies has_key(out, key_of(#[trigger] out[i])) by {
        assert(0 <= i < out.len() && key_of(out[i]) == key_of(out[i]));
    }
    assert forall|j: int| 0 <= j < out.len() implies has_key(out, key_of(#[trigger] out[j]))
        && out[j] == kept_for_key(out, key_of(out[j])) by {
        lemma_distinct_self(out, j);
    }
    assert(forall|i: int, j: int|
        #![trigger out[i], out[j]]
        0 <= i < j < out.len() ==> first_key_pos(out, key_of(out[i])) < first_key_pos(
            out,
            key_of(out[j]),
        ));
}

/// Merging is idempotent: merging an already merged list changes nothing.
pub proof fn law_dedupe_idempotent(out: Seq<RelayView>, s: Seq<RelayView>, again: Seq<RelayView>)
    requires
        is_dedupe_of(out, s),
        is_dedupe_of(again, out),
    ensures
        again == out,
{
    lemma_dedupe_of_itself(out, s);
    lemma_dedupe_unique(again, out, out);
}

/// Every saved relay falls in exactly one per-protocol subset: the subsets'
/// sizes add up to the number of saved relays.
pub proof fn law_kinds_partition(s: Seq<RelayView>)
    ensures
        relays_of_kind(s, _kind::Vless).len() + relays_of_kind(s, _kind::Trojan).len()
            + relays_of_kind(s, _kind::Shadowsocks).len() + relays_of_kind(
            s,
            _kind::Hysteria2,
        ).len() == s.len(),
    decreases s.len(),
{
    reveal(Seq::filter);
    if s.len() > 0 {
        law_kinds_partition(s.drop_last());
    }
}

/// The subset of one protocol holds only relays of that protocol, each one
/// of those given, and holds every given relay of that protocol.
pub proof fn law_of_kind(s: Seq<RelayView>, kind: _kind, i: int, j: int)
    ensures
        0 <= i < relays_of_kind(s, kind).len() ==> relays_of_kind(s, kind)[i].kind == kind
            && s.contains(relays_of_kind(s, kind)[i]),
        0 <= j < s.len() && s[j].kind == kind ==> relays_of_kind(s, kind).contains(s[j]),
        relays_of_kind(s, kind).len() <= s.len(),
{
    let pred = |v: RelayView| v.kind == kind;
    s.lemma_filter_len(pred);
    if 0 <= i < s.filter(pred).len() {
        s.lemma_filter_pred(pred, i);
        assert(s.filter(pred).contains(s.filter(pred)[i]));
        s.lemma_filter_contains_rev(pred, s.filter(pred)[i]);
    }
    if 0 <= j < s.len() && s[j].kind == kind {
        s.lemma_filter_contains(pred, j);
    }
}

/// Saving writes every relay not known to be dead.
pub proof fn law_saved_keeps_undead(s: Seq<RelayView>, j: int)
    requires
        0 <= j < s.len(),
        s[j].alive != Some(false),
    ensures
        saved_relays(s).contains(s[j]),
{
    s.lemma_filter_contains(|v: RelayView| v.alive != Some(false), j);
}

/// The count of live relays starts at zero and grows by one exactly for
/// each relay known to be alive.
pub proof fn law_alive_total_push(s: Seq<RelayView>, v: RelayView)
    ensures
        alive_total(Seq::<RelayView>::empty()) == 0,
        alive_total(s.push(v)) == alive_total(s) + (if v.alive == Some(true) {
            1int
        } else {
            0int
        }),
{
    reveal(Seq::filter);
    assert(s.push(v).drop_last() =~= s);
    assert(s.push(v).last() == v);
}

/// Saving never writes a relay known to be dead, and the count of live
/// relays it reports never exceeds the count of relays it writes.
pub proof fn law_saved_not_dead(s: Seq<RelayView>, i: int)
    requires
        0 <= i < saved_relays(s).len(),
    ensures
        saved_relays(s)[i].alive != Some(false),
        s.contains(saved_relays(s)[i]),
        alive_total(saved_relays(s)) <= saved_relays(s).len(),
{
    let pred = |v: RelayView| v.alive != Some(false);
    s.lemma_filter_pred(pred, i);
    assert(s.filter(pred).contains(s.filter(pred)[i]));
    s.lemma_filter_contains_rev(pred, s.filter(pred)[i]);
    saved_relays(s).lemma_filter_len(|v: RelayView| v.alive == Some(true));
}

} // verus!
