//! The elision filter: passes every file entry through and emits a
//! directory entry only once a file beneath it has appeared, so that
//! directories left empty by the include pattern vanish from the output.
//!
//! The filter holds at most one pending directory per open ancestor
//! level.  When an entry arrives, buffered directories at its level or
//! deeper are discarded — their subtrees ended without a file.  A
//! directory entry is then buffered; a file entry confirms and releases
//! the whole buffer in ancestor order, followed by the file itself.

use vstd::prelude::*;

use crate::file_iterator::FileItem;

verus! {

/// Discards from the back of the buffer every directory whose subtree is
/// closed by an incoming entry at `level`: those at `level` or deeper.
pub open spec fn drop_dead(cache: Seq<FileItem>, level: int) -> Seq<FileItem>
    decreases cache.len(),
{
    if cache.len() == 0 {
        cache
    } else if cache.last().level >= level {
        drop_dead(cache.drop_last(), level)
    } else {
        cache
    }
}

/// What one incoming entry adds to the output: nothing yet for a
/// directory; for a file, the surviving buffered directories in ancestor
/// order and then the file itself.
pub open spec fn step_out(cache: Seq<FileItem>, item: FileItem) -> Seq<FileItem> {
    if item.meta is Dir {
        Seq::empty()
    } else {
        drop_dead(cache, item.level as int) + seq![item]
    }
}

/// The buffer after one incoming entry: a directory joins the surviving
/// buffer; a file empties it.
pub open spec fn step_cache(cache: Seq<FileItem>, item: FileItem) -> Seq<FileItem> {
    if item.meta is Dir {
        drop_dead(cache, item.level as int).push(item)
    } else {
        Seq::empty()
    }
}

/// Everything the filter emits over a whole input sequence, starting from
/// buffer `cache`.
pub open spec fn elide(cache: Seq<FileItem>, s: Seq<FileItem>) -> Seq<FileItem>
    decreases s.len(),
{
    if s.len() == 0 {
        Seq::empty()
    } else {
        let item = s[0];
        let c = drop_dead(cache, item.level as int);
        if item.meta is Dir {
            elide(c.push(item), s.drop_first())
        } else {
            c + seq![item] + elide(Seq::empty(), s.drop_first())
        }
    }
}

/// The buffer after a whole input sequence, starting from buffer `cache`.
pub open spec fn elide_cache(cache: Seq<FileItem>, s: Seq<FileItem>) -> Seq<FileItem>
    decreases s.len(),
{
    if s.len() == 0 {
        cache
    } else {
        let item = s[0];
        if item.meta is Dir {
            elide_cache(drop_dead(cache, item.level as int).push(item), s.drop_first())
        } else {
            elide_cache(Seq::empty(), s.drop_first())
        }
    }
}

/// Buffered directories sit at strictly increasing depths: one open
/// ancestor per level.
pub open spec fn levels_increasing(cache: Seq<FileItem>) -> bool {
    forall|i: int, j: int|
        0 <= i < j < cache.len() ==> (#[trigger] cache[i]).level < (#[trigger] cache[j]).level
}

/// Discarding keeps a prefix of the buffer; under increasing levels it
/// keeps exactly the entries above `level`.
pub proof fn lemma_drop_dead_props(cache: Seq<FileItem>, level: int)
    ensures
        drop_dead(cache, level).len() <= cache.len(),
        drop_dead(cache, level) == cache.take(drop_dead(cache, level).len() as int),
        levels_increasing(cache) ==> forall|i: int|
            0 <= i < drop_dead(cache, level).len() ==> (#[trigger] cache[i]).level < level,
        levels_increasing(cache) ==> forall|i: int|
            drop_dead(cache, level).len() <= i < cache.len() ==> (#[trigger] cache[i]).level
                >= level,
    decreases cache.len(),
{
    if cache.len() == 0 {
        assert(drop_dead(cache, level) =~= cache.take(0));
    } else if cache.last().level >= level {
        let prev = cache.drop_last();
        lemma_drop_dead_props(prev, level);
        let d = drop_dead(cache, level);
        assert(prev.take(d.len() as int) =~= cache.take(d.len() as int));
        if levels_increasing(cache) {
            assert(levels_increasing(prev)) by {
                assert forall|i: int, j: int| 0 <= i < j < prev.len() implies (
                #[trigger] prev[i]).level < (#[trigger] prev[j]).level by {
                    assert(prev[i] == cache[i] && prev[j] == cache[j]);
                }
            }
            assert forall|i: int| 0 <= i < d.len() implies (#[trigger] cache[i]).level < level by {
                assert(prev[i] == cache[i]);
            }
            assert forall|i: int| d.len() <= i < cache.len() implies (#[trigger] cache[i]).level
                >= level by {
                if i < cache.len() - 1 {
                    assert(prev[i] == cache[i]);
                }
            }
        }
    } else {
        assert(drop_dead(cache, level) =~= cache.take(cache.len() as int));
        if levels_increasing(cache) {
            assert forall|i: int| 0 <= i < cache.len() implies (#[trigger] cache[i]).level
                < level by {
                if i < cache.len() - 1 {
                    assert(cache[i].level < cache[cache.len() - 1].level);
                }
            }
        }
    }
}

/// Discarding preserves the increasing-levels shape.
pub proof fn lemma_drop_dead_increasing(cache: Seq<FileItem>, level: int)
    requires
        levels_increasing(cache),
    ensures
        levels_increasing(drop_dead(cache, level)),
{
    lemma_drop_dead_props(cache, level);
    let d = drop_dead(cache, level);
    assert forall|i: int, j: int| 0 <= i < j < d.len() implies (#[trigger] d[i]).level < (
    #[trigger] d[j]).level by {
        assert(d[i] == cache[i]);
        assert(d[j] == cache[j]);
    }
}

/// One step of the filter preserves the increasing-levels shape.
pub proof fn lemma_step_cache_increasing(cache: Seq<FileItem>, item: FileItem)
    requires
        levels_increasing(cache),
    ensures
        levels_increasing(step_cache(cache, item)),
{
    if item.meta is Dir {
        lemma_drop_dead_props(cache, item.level as int);
        lemma_drop_dead_increasing(cache, item.level as int);
        let d = drop_dead(cache, item.level as int);
        assert forall|i: int, j: int| 0 <= i < j < d.push(item).len() implies (#[trigger] d.push(
            item,
        )[i]).level < (#[trigger] d.push(item)[j]).level by {
            if j < d.len() {
                assert(d.push(item)[i] == d[i] && d.push(item)[j] == d[j]);
            } else {
                assert(d.push(item)[j] == item);
                if i < d.len() {
                    assert(d.push(item)[i] == d[i]);
                    assert(d[i] == cache[i]);
                }
            }
        }
    }
}

/// In an increasing buffer each entry sits at least as deep as its
/// position.
pub proof fn lemma_increasing_ge_index(cache: Seq<FileItem>, i: int)
    requires
        levels_increasing(cache),
        0 <= i < cache.len(),
    ensures
        cache[i].level >= i,
    decreases i,
{
    if i > 0 {
        lemma_increasing_ge_index(cache, i - 1);
    }
}

/// An increasing buffer whose last entry sits at depth `d` holds at most
/// `d + 1` entries.
pub proof fn lemma_increasing_len_bound(cache: Seq<FileItem>)
    requires
        levels_increasing(cache),
        cache.len() > 0,
    ensures
        cache.len() <= cache.last().level + 1,
{
    lemma_increasing_ge_index(cache, cache.len() - 1);
}

/// Feeding one more entry extends the whole-run output by exactly the
/// entry's step, and steps the buffer: processing entries one at a time
/// computes `elide`.
pub proof fn lemma_elide_snoc(cache: Seq<FileItem>, s: Seq<FileItem>, x: FileItem)
    ensures
        elide(cache, s.push(x)) == elide(cache, s) + step_out(elide_cache(cache, s), x),
        elide_cache(cache, s.push(x)) == step_cache(elide_cache(cache, s), x),
    decreases s.len(),
{
    reveal_with_fuel(elide, 3);
    reveal_with_fuel(elide_cache, 3);
    if s.len() == 0 {
        assert(s.push(x)[0] == x);
        assert(s.push(x).drop_first() =~= Seq::<FileItem>::empty());
        if x.meta is Dir {
            assert(elide(cache, s.push(x)) =~= Seq::<FileItem>::empty());
            assert(elide(cache, s) =~= Seq::<FileItem>::empty());
            assert(step_out(cache, x) =~= Seq::<FileItem>::empty());
        } else {
            assert(elide(cache, s.push(x)) =~= drop_dead(cache, x.level as int) + seq![x]);
            assert(elide(cache, s) + step_out(cache, x) =~= drop_dead(cache, x.level as int)
                + seq![x]);
        }
    } else {
        let y = s[0];
        assert(s.push(x)[0] == y);
        assert(s.push(x).drop_first() =~= s.drop_first().push(x));
        let c = drop_dead(cache, y.level as int);
        if y.meta is Dir {
            lemma_elide_snoc(c.push(y), s.drop_first(), x);
        } else {
            lemma_elide_snoc(Seq::empty(), s.drop_first(), x);
            assert(elide(cache, s.push(x)) =~= (c + seq![y] + elide(
                Seq::empty(),
                s.drop_first(),
            )) + step_out(elide_cache(Seq::empty(), s.drop_first()), x));
        }
    }
}

/// No entry up to position `j` closes a directory at depth `level`:
/// they all lie strictly deeper.
pub open spec fn open_until(s: Seq<FileItem>, j: int, level: int) -> bool {
    forall|m: int| 0 <= m <= j ==> (#[trigger] s[m]).level > level
}

/// Among the upcoming entries `s`, a file appears while a directory at
/// depth `level` is still open: some non-directory entry comes before
/// anything at depth `level` or above.
pub open spec fn confirmed(s: Seq<FileItem>, level: int) -> bool {
    exists|j: int|
        0 <= j < s.len() && !((#[trigger] s[j]).meta is Dir) && open_until(s, j, level)
}

/// A directory once open stays confirmed for every shallower depth.
proof fn lemma_confirmed_antitone(s: Seq<FileItem>, l1: int, l2: int)
    requires
        l1 <= l2,
        confirmed(s, l2),
    ensures
        confirmed(s, l1),
{
    let j = choose|j: int| 0 <= j < s.len() && !((#[trigger] s[j]).meta is Dir) && open_until(
        s,
        j,
        l2,
    );
    assert(open_until(s, j, l1)) by {
        assert forall|m: int| 0 <= m <= j implies (#[trigger] s[m]).level > l1 by {
            assert(s[m].level > l2);
        }
    }
    assert(0 <= j < s.len() && !(s[j].meta is Dir) && open_until(s, j, l1));
}

/// Being confirmed, read off the first entry: it must lie deeper than
/// the open directory, and either be a file itself or leave the rest to
/// confirm it.
proof fn lemma_confirmed_cons(s: Seq<FileItem>, level: int)
    requires
        s.len() > 0,
    ensures
        confirmed(s, level) <==> (s[0].level > level && (!(s[0].meta is Dir) || confirmed(
            s.drop_first(),
            level,
        ))),
{
    let x = s[0];
    let t = s.drop_first();
    if confirmed(s, level) {
        let j = choose|j: int|
            0 <= j < s.len() && !((#[trigger] s[j]).meta is Dir) && open_until(s, j, level);
        assert(s[0].level > level);
        if j > 0 {
            assert(t[j - 1] == s[j]);
            assert(open_until(t, j - 1, level)) by {
                assert forall|m: int| 0 <= m <= j - 1 implies (#[trigger] t[m]).level > level by {
                    assert(t[m] == s[m + 1]);
                    assert(s[m + 1].level > level);
                }
            }
            assert(0 <= j - 1 < t.len() && !(t[j - 1].meta is Dir) && open_until(t, j - 1, level));
        }
    }
    if x.level > level {
        if !(x.meta is Dir) {
            assert(open_until(s, 0, level));
            assert(0 <= 0 < s.len() && !(s[0].meta is Dir) && open_until(s, 0, level));
            assert(confirmed(s, level));
        } else if confirmed(t, level) {
            let j = choose|j: int|
                0 <= j < t.len() && !((#[trigger] t[j]).meta is Dir) && open_until(t, j, level);
            assert(s[j + 1] == t[j]);
            assert(open_until(s, j + 1, level)) by {
                assert forall|m: int| 0 <= m <= j + 1 implies (#[trigger] s[m]).level > level by {
                    if m > 0 {
                        assert(s[m] == t[m - 1]);
                        assert(t[m - 1].level > level);
                    }
                }
            }
            assert(0 <= j + 1 < s.len() && !(s[j + 1].meta is Dir) && open_until(s, j + 1, level));
        }
    }
}

/// How many of the buffered directories, oldest first, the upcoming
/// entries confirm.
pub open spec fn confirmed_count(cache: Seq<FileItem>, s: Seq<FileItem>) -> int
    decreases cache.len(),
{
    if cache.len() == 0 {
        0
    } else if confirmed(s, cache.last().level as int) {
        cache.len() as int
    } else {
        confirmed_count(cache.drop_last(), s)
    }
}

proof fn lemma_cc_bounds(cache: Seq<FileItem>, s: Seq<FileItem>)
    ensures
        0 <= confirmed_count(cache, s) <= cache.len(),
    decreases cache.len(),
{
    if cache.len() > 0 && !confirmed(s, cache.last().level as int) {
        lemma_cc_bounds(cache.drop_last(), s);
    }
}

/// A buffer whose confirmed members form exactly the prefix of length
/// `k` has confirmed count `k`.
proof fn lemma_cc_from_char(cache: Seq<FileItem>, s: Seq<FileItem>, k: int)
    requires
        0 <= k <= cache.len(),
        forall|i: int| 0 <= i < k ==> confirmed(s, (#[trigger] cache[i]).level as int),
        forall|i: int| k <= i < cache.len() ==> !confirmed(s, (#[trigger] cache[i]).level as int),
    ensures
        confirmed_count(cache, s) == k,
    decreases cache.len(),
{
    if cache.len() == 0 {
    } else if confirmed(s, cache.last().level as int) {
        assert(k == cache.len());
    } else {
        assert(k <= cache.len() - 1);
        let prev = cache.drop_last();
        assert forall|i: int| 0 <= i < k implies confirmed(s, (#[trigger] prev[i]).level as int) by {
            assert(prev[i] == cache[i]);
        }
        assert forall|i: int| k <= i < prev.len() implies !confirmed(
            s,
            (#[trigger] prev[i]).level as int,
        ) by {
            assert(prev[i] == cache[i]);
        }
        lemma_cc_from_char(prev, s, k);
    }
}

/// Conversely, under increasing levels the confirmed members are exactly
/// the prefix of length `confirmed_count`.
proof fn lemma_cc_char(cache: Seq<FileItem>, s: Seq<FileItem>)
    requires
        levels_increasing(cache),
    ensures
        forall|i: int|
            0 <= i < confirmed_count(cache, s) ==> confirmed(s, (#[trigger] cache[i]).level as int),
        forall|i: int|
            confirmed_count(cache, s) <= i < cache.len() ==> !confirmed(
                s,
                (#[trigger] cache[i]).level as int,
            ),
    decreases cache.len(),
{
    if cache.len() == 0 {
    } else if confirmed(s, cache.last().level as int) {
        assert forall|i: int| 0 <= i < cache.len() implies confirmed(
            s,
            (#[trigger] cache[i]).level as int,
        ) by {
            if i < cache.len() - 1 {
                assert(cache[i].level < cache.last().level);
                lemma_confirmed_antitone(s, cache[i].level as int, cache.last().level as int);
            }
        }
    } else {
        let prev = cache.drop_last();
        assert(levels_increasing(prev)) by {
            assert forall|i: int, j: int| 0 <= i < j < prev.len() implies (
            #[trigger] prev[i]).level < (#[trigger] prev[j]).level by {
                assert(prev[i] == cache[i] && prev[j] == cache[j]);
            }
        }
        lemma_cc_char(prev, s);
        lemma_cc_bounds(prev, s);
        let k = confirmed_count(prev, s);
        assert forall|i: int| 0 <= i < confirmed_count(cache, s) implies confirmed(
            s,
            (#[trigger] cache[i]).level as int,
        ) by {
            assert(cache[i] == prev[i]);
        }
        assert forall|i: int| confirmed_count(cache, s) <= i < cache.len() implies !confirmed(
            s,
            (#[trigger] cache[i]).level as int,
        ) by {
            if i < cache.len() - 1 {
                assert(cache[i] == prev[i]);
            }
        }
    }
}

/// Running from a buffer emits the confirmed prefix of that buffer and
/// then whatever a fresh run over the same entries emits.
proof fn lemma_elide_general(cache: Seq<FileItem>, s: Seq<FileItem>)
    requires
        levels_increasing(cache),
    ensures
        elide(cache, s) == cache.take(confirmed_count(cache, s)) + elide(Seq::empty(), s),
    decreases s.len(),
{
    reveal_with_fuel(elide, 2);
    if s.len() == 0 {
        assert forall|i: int| 0 <= i < cache.len() implies !confirmed(
            s,
            (#[trigger] cache[i]).level as int,
        ) by {}
        lemma_cc_from_char(cache, s, 0);
        assert(elide(cache, s) =~= cache.take(0) + elide(Seq::empty(), s));
    } else {
        let x = s[0];
        let t = s.drop_first();
        let lvl = x.level as int;
        let c = drop_dead(cache, lvl);
        lemma_drop_dead_props(cache, lvl);
        lemma_drop_dead_increasing(cache, lvl);
        assert(drop_dead(Seq::<FileItem>::empty(), lvl) =~= Seq::<FileItem>::empty());
        if !(x.meta is Dir) {
            assert forall|i: int| 0 <= i < c.len() implies confirmed(
                s,
                (#[trigger] cache[i]).level as int,
            ) by {
                assert(cache[i].level < lvl);
                assert(open_until(s, 0, cache[i].level as int));
                assert(0 <= 0 < s.len() && !(s[0].meta is Dir) && open_until(
                    s,
                    0,
                    cache[i].level as int,
                ));
            }
            assert forall|i: int| c.len() <= i < cache.len() implies !confirmed(
                s,
                (#[trigger] cache[i]).level as int,
            ) by {
                lemma_confirmed_cons(s, cache[i].level as int);
            }
            lemma_cc_from_char(cache, s, c.len() as int);
            assert(elide(cache, s) =~= cache.take(confirmed_count(cache, s)) + elide(
                Seq::empty(),
                s,
            ));
        } else {
            assert(levels_increasing(c.push(x))) by {
                lemma_step_cache_increasing(cache, x);
                assert(step_cache(cache, x) == c.push(x));
            }
            lemma_elide_general(c.push(x), t);
            assert(levels_increasing(seq![x]));
            lemma_elide_general(seq![x], t);
            assert(Seq::<FileItem>::empty().push(x) =~= seq![x]);
            assert(elide(Seq::empty(), s) == seq![x].take(confirmed_count(seq![x], t)) + elide(
                Seq::empty(),
                t,
            ));
            if confirmed(t, lvl) {
                assert(confirmed_count(seq![x], t) == 1);
                assert(seq![x].take(1) =~= seq![x]);
                assert forall|i: int| 0 <= i < c.push(x).len() implies confirmed(
                    t,
                    (#[trigger] c.push(x)[i]).level as int,
                ) by {
                    if i < c.len() {
                        assert(c.push(x)[i] == c[i]);
                        assert(c[i] == cache[i]);
                        assert(cache[i].level < lvl);
                        lemma_confirmed_antitone(t, cache[i].level as int, lvl);
                    } else {
                        assert(c.push(x)[i] == x);
                    }
                }
                lemma_cc_from_char(c.push(x), t, c.push(x).len() as int);
                assert forall|i: int| 0 <= i < c.len() implies confirmed(
                    s,
                    (#[trigger] cache[i]).level as int,
                ) by {
                    assert(cache[i].level < lvl);
                    lemma_confirmed_antitone(t, cache[i].level as int, lvl);
                    lemma_confirmed_cons(s, cache[i].level as int);
                }
                assert forall|i: int| c.len() <= i < cache.len() implies !confirmed(
                    s,
                    (#[trigger] cache[i]).level as int,
                ) by {
                    lemma_confirmed_cons(s, cache[i].level as int);
                }
                lemma_cc_from_char(cache, s, c.len() as int);
                assert((c.push(x)).take(c.push(x).len() as int) =~= c.push(x));
                assert(c.push(x) =~= cache.take(c.len() as int) + seq![x]);
                assert(elide(cache, s) =~= cache.take(confirmed_count(cache, s)) + elide(
                    Seq::empty(),
                    s,
                ));
            } else {
                assert(seq![x].drop_last() =~= Seq::<FileItem>::empty());
                assert(seq![x].last() == x);
                assert(confirmed_count(Seq::<FileItem>::empty(), t) == 0);
                assert(confirmed_count(seq![x], t) == 0);
                assert(seq![x].take(0) =~= Seq::<FileItem>::empty());
                assert((c.push(x)).drop_last() =~= c);
                assert(confirmed_count(c.push(x), t) == confirmed_count(c, t));
                let k0 = confirmed_count(c, t);
                lemma_cc_bounds(c, t);
                lemma_cc_char(c, t);
                assert forall|i: int| 0 <= i < k0 implies confirmed(
                    s,
                    (#[trigger] cache[i]).level as int,
                ) by {
                    assert(c[i] == cache[i]);
                    assert(confirmed(t, cache[i].level as int));
                    assert(cache[i].level < lvl);
                    lemma_confirmed_cons(s, cache[i].level as int);
                }
                assert forall|i: int| k0 <= i < cache.len() implies !confirmed(
                    s,
                    (#[trigger] cache[i]).level as int,
                ) by {
                    lemma_confirmed_cons(s, cache[i].level as int);
                    if i < c.len() {
                        assert(c[i] == cache[i]);
                        assert(!confirmed(t, cache[i].level as int));
                    }
                }
                lemma_cc_from_char(cache, s, k0);
                assert((c.push(x)).take(k0) =~= cache.take(k0));
                assert(elide(cache, s) =~= cache.take(confirmed_count(cache, s)) + elide(
                    Seq::empty(),
                    s,
                ));
            }
        }
    }
}

/// Whether the first entry of `s` survives the active filter: files
/// always do, a directory only when a file confirms it later.
pub open spec fn keep_head(s: Seq<FileItem>) -> bool
    recommends
        s.len() > 0,
{
    !(s[0].meta is Dir) || confirmed(s.drop_first(), s[0].level as int)
}

/// The entries of `s` that the active filter emits, in input order: each
/// entry kept exactly when `keep_head` holds of the input from it on.
pub open spec fn select(s: Seq<FileItem>) -> Seq<FileItem>
    decreases s.len(),
{
    if s.len() == 0 {
        Seq::empty()
    } else if keep_head(s) {
        seq![s[0]] + select(s.drop_first())
    } else {
        select(s.drop_first())
    }
}

/// The elision law: over any input, the active filter emits exactly the
/// entries selected by `keep_head` — every file, and a directory if and
/// only if some later file lies in its still-open subtree.
pub proof fn lemma_elision_selects(s: Seq<FileItem>)
    ensures
        elide(Seq::empty(), s) == select(s),
    decreases s.len(),
{
    reveal_with_fuel(elide, 2);
    if s.len() > 0 {
        let x = s[0];
        let t = s.drop_first();
        let lvl = x.level as int;
        lemma_elision_selects(t);
        assert(drop_dead(Seq::<FileItem>::empty(), lvl) =~= Seq::<FileItem>::empty());
        if x.meta is Dir {
            assert(levels_increasing(seq![x]));
            assert(Seq::<FileItem>::empty().push(x) =~= seq![x]);
            lemma_elide_general(seq![x], t);
            if confirmed(t, lvl) {
                assert(confirmed_count(seq![x], t) == 1);
                assert(seq![x].take(1) =~= seq![x]);
                assert(elide(Seq::empty(), s) =~= seq![x] + select(t));
            } else {
                assert(seq![x].drop_last() =~= Seq::<FileItem>::empty());
                assert(seq![x].last() == x);
                assert(confirmed_count(Seq::<FileItem>::empty(), t) == 0);
                assert(confirmed_count(seq![x], t) == 0);
                assert(seq![x].take(0) =~= Seq::<FileItem>::empty());
                assert(elide(Seq::empty(), s) =~= select(t));
            }
        } else {
            assert(elide(Seq::empty(), s) =~= seq![x] + select(t));
        }
    }
}

/// `a` can be read off `b` in order, skipping entries.
pub open spec fn subsequence_of(a: Seq<FileItem>, b: Seq<FileItem>) -> bool
    decreases b.len(),
{
    if a.len() == 0 {
        true
    } else if b.len() == 0 {
        false
    } else {
        (a[0] == b[0] && subsequence_of(a.drop_first(), b.drop_first())) || subsequence_of(
            a,
            b.drop_first(),
        )
    }
}

/// The filter never reorders: what it emits is a subsequence of its
/// input, so entries keep their pre-order, ascending-name arrangement.
pub proof fn lemma_select_subsequence(s: Seq<FileItem>)
    ensures
        subsequence_of(select(s), s),
    decreases s.len(),
{
    if s.len() > 0 {
        let t = s.drop_first();
        lemma_select_subsequence(t);
        if keep_head(s) {
            let a = select(s);
            assert(a[0] == s[0]);
            assert(a.drop_first() =~= select(t));
        }
    }
}

/// The streaming elision filter.
pub struct FilteredIterator {
    cache: std::collections::VecDeque<FileItem>,
    skip: bool,
}

impl FilteredIterator {
    /// The buffered, not yet confirmed directory entries, oldest first.
    pub closed spec fn cache_spec(&self) -> Seq<FileItem> {
        self.cache@
    }

    /// Whether the filter passes everything through unchanged.
    pub closed spec fn skip_spec(&self) -> bool {
        self.skip
    }

    #[verifier::type_invariant]
    spec fn wf(&self) -> bool {
        levels_increasing(self.cache@)
    }

    /// A fresh filter: nothing buffered, filtering active.
    pub fn new() -> (r: FilteredIterator)
        ensures
            r.cache_spec() == Seq::<FileItem>::empty(),
            !r.skip_spec(),
    {
        FilteredIterator { cache: std::collections::VecDeque::new(), skip: false }
    }

    /// Disables filtering: every later entry passes straight through.
    pub fn skip_filter(&mut self)
        ensures
            final(self).skip_spec(),
            final(self).cache_spec() == old(self).cache_spec(),
    {
        proof {
            use_type_invariant(&*self);
        }
        self.skip = true;
    }

    /// How many directory entries are buffered.
    pub fn cache_len(&self) -> (n: usize)
        ensures
            n == self.cache_spec().len(),
    {
        self.cache.len()
    }

    /// Whether the filter passes everything through unchanged.
    pub fn is_skip(&self) -> (r: bool)
        ensures
            r == self.skip_spec(),
    {
        self.skip
    }

    /// Discards the buffered directories whose subtrees the incoming
    /// entry proves finished: those at its level or deeper, from the
    /// back.
    pub fn remove_empty_directories_from_cache(&mut self, item: &FileItem)
        ensures
            final(self).skip_spec() == old(self).skip_spec(),
            final(self).cache_spec() == drop_dead(old(self).cache_spec(), item.level as int),
    {
        proof {
            use_type_invariant(&*self);
        }
        let ghost orig = self.cache@;
        let mut cache = std::collections::VecDeque::new();
        std::mem::swap(&mut self.cache, &mut cache);
        while cache.len() > 0 && cache[cache.len() - 1].level >= item.level
            invariant
                levels_increasing(cache@),
                drop_dead(cache@, item.level as int) == drop_dead(orig, item.level as int),
            decreases cache@.len(),
        {
            let ghost pre = cache@;
            cache.pop_back();
            proof {
                assert(cache@ =~= pre.drop_last());
                assert(levels_increasing(cache@));
            }
        }
        proof {
            if cache@.len() > 0 {
                assert(drop_dead(cache@, item.level as int) == cache@);
            } else {
                assert(drop_dead(cache@, item.level as int) == cache@);
            }
            lemma_drop_dead_increasing(orig, item.level as int);
        }
        std::mem::swap(&mut self.cache, &mut cache);
    }

    /// Feeds one entry through the filter and returns what it releases:
    /// in skip mode the entry itself; otherwise nothing for a directory,
    /// which is buffered, and for a file the confirmed buffer in ancestor
    /// order followed by the file.  The buffer never grows past the
    /// entry's depth plus one.
    pub fn process(&mut self, item: FileItem) -> (out: Vec<FileItem>)
        ensures
            final(self).skip_spec() == old(self).skip_spec(),
            old(self).skip_spec() ==> out@ =~= seq![item] && final(self).cache_spec()
                == old(self).cache_spec(),
            !old(self).skip_spec() ==> out@ == step_out(old(self).cache_spec(), item)
                && final(self).cache_spec() == step_cache(old(self).cache_spec(), item),
            !old(self).skip_spec() ==> final(self).cache_spec().len() <= item.level as nat + 1,
    {
        proof {
            use_type_invariant(&*self);
        }
        let ghost orig = self.cache@;
        if self.skip {
            let mut out: Vec<FileItem> = Vec::new();
            out.push(item);
            return out;
        }
        self.remove_empty_directories_from_cache(&item);
        proof {
            lemma_drop_dead_increasing(orig, item.level as int);
            lemma_drop_dead_props(orig, item.level as int);
        }
        if item.is_dir() {
            let ghost trimmed = self.cache@;
            let mut cache = std::collections::VecDeque::new();
            std::mem::swap(&mut self.cache, &mut cache);
            cache.push_back(item);
            proof {
                lemma_step_cache_increasing(orig, item);
                assert(cache@ == step_cache(orig, item));
            }
            std::mem::swap(&mut self.cache, &mut cache);
            proof {
                if self.cache@.len() > 0 {
                    lemma_increasing_len_bound(self.cache@);
                }
            }
            Vec::new()
        } else {
            let mut cache = std::collections::VecDeque::new();
            std::mem::swap(&mut self.cache, &mut cache);
            let ghost survivors = cache@;
            let mut out: Vec<FileItem> = Vec::new();
            while cache.len() > 0
                invariant
                    out@ + cache@ == survivors,
                decreases cache@.len(),
            {
                let ghost pre = cache@;
                match cache.pop_front() {
                    Some(x) => {
                        out.push(x);
                        proof {
                            assert(out@ + cache@ =~= survivors);
                        }
                    },
                    None => {
                        proof {
                            assert(false);
                        }
                    },
                }
            }
            out.push(item);
            proof {
                assert(out@ =~= survivors + seq![item]);
                assert(out@ == step_out(orig, item));
            }
            out
        }
    }
}

} // verus!
