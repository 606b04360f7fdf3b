use vstd::prelude::*;
use vstd::string::StrSliceExecFns;

verus! {

/// The abstract contents of a list of strings, in order.
pub open spec fn views(v: Seq<String>) -> Seq<Seq<char>> {
    v.map_values(|s: String| s@)
}

/// The strings obtained from `s` by removing exactly one character.
pub open spec fn deletions(s: Seq<char>) -> Set<Seq<char>> {
    Set::new(|t: Seq<char>| exists|i: int| 0 <= i < s.len() && t == s.remove(i))
}

/// The strings obtained from `s` by removing at most `d` characters, one at a time.
pub open spec fn within(s: Seq<char>, d: nat) -> Set<Seq<char>>
    decreases d,
{
    if d == 0 {
        set![s]
    } else {
        let prev = within(s, (d - 1) as nat);
        prev.union(
            Set::new(|t: Seq<char>| exists|u: Seq<char>| prev.contains(u) && deletions(u).contains(t)),
        )
    }
}

/// The deletion variants of `s`: the strings obtained from it by removing between one and
/// `d` characters.
pub open spec fn variants(s: Seq<char>, d: nat) -> Set<Seq<char>> {
    within(s, d).remove(s)
}

/// Relies on `FromIterator<char>` for `String`: the string holds exactly the given characters.
#[verifier::external_body]
fn string_from_chars(cs: &Vec<char>) -> (r: String)
    ensures
        r@ == cs@,
{
    cs.iter().collect()
}

fn chars_of(s: &str) -> (r: Vec<char>)
    ensures
        r@ == s@,
{
    let n = s.unicode_len();
    let mut r: Vec<char> = Vec::new();
    let mut i: usize = 0;
    while i < n
        invariant
            n == s@.len(),
            i <= n,
            r@ == s@.subrange(0, i as int),
        decreases n - i,
    {
        r.push(s.get_char(i));
        i += 1;
    }
    assert(r@ =~= s@);
    r
}

fn without_char(cs: &Vec<char>, skip: usize) -> (r: String)
    requires
        skip < cs.len(),
    ensures
        r@ == cs@.remove(skip as int),
{
    let mut kept: Vec<char> = Vec::new();
    let mut i: usize = 0;
    while i < cs.len()
        invariant
            skip < cs.len(),
            i <= cs.len(),
            i <= skip ==> kept@ == cs@.subrange(0, i as int),
            i > skip ==> kept@ == cs@.subrange(0, skip as int) + cs@.subrange(skip + 1, i as int),
        decreases cs.len() - i,
    {
        if i != skip {
            kept.push(cs[i]);
        }
        proof {
            if i + 1 > skip {
                assert(kept@ =~= cs@.subrange(0, skip as int) + cs@.subrange(skip + 1, i + 1));
            } else {
                assert(kept@ =~= cs@.subrange(0, i + 1));
            }
        }
        i += 1;
    }
    string_from_chars(&kept)
}

/// One string per character position of `word`: `word` with that character removed.
pub fn single_deletions(word: &str) -> (r: Vec<String>)
    ensures
        r.len() == word@.len(),
        forall|i: int| 0 <= i < r.len() ==> #[trigger] r[i]@ == word@.remove(i),
{
    let cs = chars_of(word);
    let mut r: Vec<String> = Vec::new();
    let mut i: usize = 0;
    while i < cs.len()
        invariant
            cs@ == word@,
            i <= cs.len(),
            r.len() == i,
            forall|j: int| 0 <= j < i ==> #[trigger] r[j]@ == word@.remove(j),
        decreases cs.len() - i,
    {
        r.push(without_char(&cs, i));
        i += 1;
    }
    r
}

/// Whether one of the strings in `v` equals `s`.
pub fn contains_str(v: &Vec<String>, s: &String) -> (b: bool)
    ensures
        b == views(v@).contains(s@),
{
    let mut i: usize = 0;
    while i < v.len()
        invariant
            i <= v.len(),
            forall|j: int| 0 <= j < i ==> v@[j]@ != s@,
        decreases v.len() - i,
    {
        if v[i] == *s {
            assert(views(v@)[i as int] == s@);
            return true;
        }
        i += 1;
    }
    assert(!views(v@).contains(s@)) by {
        if views(v@).contains(s@) {
            let j = choose|j: int| 0 <= j < views(v@).len() && views(v@)[j] == s@;
            assert(v@[j]@ == s@);
        }
    }
    false
}

/// Appends `s` to `v` unless an equal string is already there.
pub fn push_new(v: &mut Vec<String>, s: String)
    ensures
        views(final(v)@) == if views(old(v)@).contains(s@) {
            views(old(v)@)
        } else {
            views(old(v)@).push(s@)
        },
        final(v)@.len() >= old(v)@.len(),
        final(v)@.subrange(0, old(v)@.len() as int) == old(v)@,
{
    if !contains_str(v, &s) {
        let ghost before = v@;
        v.push(s);
        assert(views(v@) =~= views(before).push(s@));
        assert(v@.subrange(0, before.len() as int) =~= before);
    } else {
        assert(v@.subrange(0, v@.len() as int) =~= v@);
    }
}

proof fn lemma_push_new_set(a: Seq<Seq<char>>, t: Seq<char>)
    ensures
        a.push(t).to_set() == a.to_set().insert(t),
        a.contains(t) ==> a.to_set().insert(t) == a.to_set(),
        a.no_duplicates() && !a.contains(t) ==> a.push(t).no_duplicates(),
{
    assert(a.push(t).to_set() =~= a.to_set().insert(t)) by {
        assert forall|x| a.push(t).to_set().contains(x) implies a.to_set().insert(t).contains(x) by {
            let j = choose|j: int| 0 <= j < a.push(t).len() && a.push(t)[j] == x;
            if j < a.len() {
                assert(a[j] == x);
            }
        }
        assert forall|x| a.to_set().insert(t).contains(x) implies a.push(t).to_set().contains(x) by {
            if x == t {
                assert(a.push(t)[a.len() as int] == x);
            } else {
                let j = choose|j: int| 0 <= j < a.len() && a[j] == x;
                assert(a.push(t)[j] == x);
            }
        }
    }
    assert(a.contains(t) ==> a.to_set().insert(t) =~= a.to_set());
    if a.no_duplicates() && !a.contains(t) {
        assert forall|i: int, j: int|
            0 <= i < a.push(t).len() && 0 <= j < a.push(t).len() && i != j implies a.push(t)[i]
            != a.push(t)[j] by {
            if i < a.len() && j < a.len() {
            } else if i < a.len() {
                assert(a[i] == a.push(t)[i]);
            } else {
                assert(a[j] == a.push(t)[j]);
            }
        }
    }
}

/// The deletion variants of `word` up to `distance` deletions, each once.
pub fn deletion_variants(word: &str, distance: u8) -> (r: Vec<String>)
    ensures
        views(r@).no_duplicates(),
        views(r@).to_set() == variants(word@, distance as nat),
{
    let mut all: Vec<String> = Vec::new();
    all.push(word.to_owned());
    assert(views(all@) =~= seq![word@]);
    assert(views(all@).to_set() =~= within(word@, 0)) by {
        assert(views(all@)[0] == word@);
    }
    let mut round: u8 = 0;
    while round < distance
        invariant
            round <= distance,
            all.len() > 0,
            all@[0]@ == word@,
            views(all@).no_duplicates(),
            views(all@).to_set() == within(word@, round as nat),
        decreases distance - round,
    {
        let ghost prev = within(word@, round as nat);
        let ghost next = within(word@, (round + 1) as nat);
        let ghost start = all@;
        let n0 = all.len();
        let mut j: usize = 0;
        while j < n0
            invariant
                n0 == start.len(),
                j <= n0,
                all.len() >= n0,
                all@.subrange(0, n0 as int) == start,
                views(start).to_set() == prev,
                all@[0]@ == word@,
                views(all@).no_duplicates(),
                prev.subset_of(views(all@).to_set()),
                views(all@).to_set().subset_of(next),
                next == prev.union(
                    Set::new(|t: Seq<char>| exists|u: Seq<char>| prev.contains(u) && deletions(u).contains(t)),
                ),
                forall|jj: int| 0 <= jj < j ==> #[trigger] deletions(start[jj]@).subset_of(views(all@).to_set()),
            decreases n0 - j,
        {
            let dels = single_deletions(all[j].as_str());
            let ghost u = start[j as int]@;
            assert(all@[j as int] == all@.subrange(0, n0 as int)[j as int]);
            assert(prev.contains(u)) by {
                assert(views(start)[j as int] == u);
            }
            let mut k: usize = 0;
            while k < dels.len()
                invariant
                    n0 == start.len(),
                    j < n0,
                    u == start[j as int]@,
                    prev.contains(u),
                    dels.len() == u.len(),
                    forall|i: int| 0 <= i < dels.len() ==> #[trigger] dels[i]@ == u.remove(i),
                    k <= dels.len(),
                    all.len() >= n0,
                    all@.subrange(0, n0 as int) == start,
                    all@[0]@ == word@,
                    views(all@).no_duplicates(),
                    prev.subset_of(views(all@).to_set()),
                    views(all@).to_set().subset_of(next),
                    next == prev.union(
                        Set::new(|t: Seq<char>| exists|u: Seq<char>| prev.contains(u) && deletions(u).contains(t)),
                    ),
                    forall|jj: int| 0 <= jj < j ==> #[trigger] deletions(start[jj]@).subset_of(views(all@).to_set()),
                    forall|kk: int| 0 <= kk < k ==> views(all@).to_set().contains(#[trigger] dels[kk]@),
                decreases dels.len() - k,
            {
                let ghost before = all@;
                let t = dels[k].clone();
                proof {
                    assert(deletions(u).contains(t@));
                    lemma_push_new_set(views(before), t@);
                }
                push_new(&mut all, t);
                proof {
                    assert(all@[0] == all@.subrange(0, n0 as int)[0]);
                    assert forall|jj: int| 0 <= jj < j implies #[trigger] deletions(
                        start[jj]@,
                    ).subset_of(views(all@).to_set()) by {
                        assert(deletions(start[jj]@).subset_of(views(before).to_set()));
                    }
                }
                k += 1;
            }
            proof {
                assert(deletions(u).subset_of(views(all@).to_set())) by {
                    assert forall|t| deletions(u).contains(t) implies views(all@).to_set().contains(t) by {
                        let i = choose|i: int| 0 <= i < u.len() && t == u.remove(i);
                        assert(dels[i]@ == t);
                    }
                }
            }
            j += 1;
        }
        proof {
            assert(views(all@).to_set() =~= next) by {
                assert forall|t| next.contains(t) implies views(all@).to_set().contains(t) by {
                    if !prev.contains(t) {
                        let u = choose|u: Seq<char>| prev.contains(u) && deletions(u).contains(t);
                        let jj = choose|jj: int| 0 <= jj < views(start).len() && views(start)[jj] == u;
                        assert(deletions(start[jj]@).subset_of(views(all@).to_set()));
                    }
                }
            }
        }
        round += 1;
    }
    let ghost whole = views(all@);
    all.remove(0);
    proof {
        assert(views(all@) =~= whole.remove(0));
        assert(views(all@).to_set() =~= whole.to_set().remove(word@)) by {
            assert forall|x| views(all@).to_set().contains(x) implies whole.to_set().remove(word@).contains(x) by {
                let i = choose|i: int| 0 <= i < views(all@).len() && views(all@)[i] == x;
                assert(whole[i + 1] == x);
                assert(whole[0] == word@);
            }
            assert forall|x| whole.to_set().remove(word@).contains(x) implies views(all@).to_set().contains(x) by {
                let i = choose|i: int| 0 <= i < whole.len() && whole[i] == x;
                assert(whole[0] == word@);
                assert(i != 0);
                assert(views(all@)[i - 1] == x);
            }
        }
    }
    all
}

/// Every string within `d` deletions of `s` is at most `d` characters shorter than `s`, and
/// no longer.
pub proof fn lemma_within_lengths(s: Seq<char>, d: nat, t: Seq<char>)
    requires
        within(s, d).contains(t),
    ensures
        s.len() - d <= t.len() <= s.len(),
        t.len() == s.len() ==> t == s,
    decreases d,
{
    if d > 0 {
        let prev = within(s, (d - 1) as nat);
        if !prev.contains(t) {
            let u = choose|u: Seq<char>| prev.contains(u) && deletions(u).contains(t);
            lemma_within_lengths(s, (d - 1) as nat, u);
            let i = choose|i: int| 0 <= i < u.len() && t == u.remove(i);
        } else {
            lemma_within_lengths(s, (d - 1) as nat, t);
        }
    }
}

/// Within `d` deletions lies everything within fewer.
pub proof fn lemma_within_grows(s: Seq<char>, d: nat, e: nat)
    requires
        e <= d,
    ensures
        within(s, e).subset_of(within(s, d)),
    decreases d,
{
    if e < d {
        lemma_within_grows(s, (d - 1) as nat, e);
    }
}

/// The variants of `s` at distance `d` are exactly its strings of one to `d` deletions:
/// each one deletion of `s`, each deletion of those when `d` is at least two, and none
/// more than `d` characters shorter than `s`, nor `s` itself.
pub proof fn lemma_variants_complete(s: Seq<char>, d: nat)
    ensures
        forall|t: Seq<char>| #[trigger] variants(s, d).contains(t) ==> s.len() - d <= t.len() < s.len(),
        d >= 1 ==> deletions(s).subset_of(variants(s, d)),
        d >= 2 ==> forall|u: Seq<char>, t: Seq<char>|
            deletions(s).contains(u) && #[trigger] deletions(u).contains(t) ==> #[trigger] variants(s, d).contains(t),
{
    assert forall|t: Seq<char>| #[trigger] variants(s, d).contains(t) implies s.len() - d <= t.len() < s.len() by {
        lemma_within_lengths(s, d, t);
    }
    if d >= 1 {
        lemma_within_grows(s, d, 1);
        assert(within(s, 0).contains(s));
        assert forall|t: Seq<char>| deletions(s).contains(t) implies variants(s, d).contains(t) by {
            assert(within(s, 1).contains(t));
            let i = choose|i: int| 0 <= i < s.len() && t == s.remove(i);
            assert(t.len() < s.len());
        }
    }
    if d >= 2 {
        lemma_within_grows(s, d, 2);
        assert forall|u: Seq<char>, t: Seq<char>|
            deletions(s).contains(u) && #[trigger] deletions(u).contains(t)
                implies #[trigger] variants(s, d).contains(t) by {
            assert(within(s, 0).contains(s));
            assert(within(s, 1).contains(u));
            assert(within(s, 2).contains(t));
            let i = choose|i: int| 0 <= i < s.len() && u == s.remove(i);
            let j = choose|j: int| 0 <= j < u.len() && t == u.remove(j);
            assert(t.len() < s.len());
        }
    }
}

/// `k` is obtained from `w` by removing some number of characters, possibly none.
pub open spec fn derives(w: Seq<char>, k: Seq<char>) -> bool {
    exists|n: nat| #[trigger] within(w, n).contains(k)
}

/// A deletion of a string derived from `w` is derived from `w`.
pub proof fn lemma_derives_step(w: Seq<char>, i: Seq<char>, t: Seq<char>)
    requires
        derives(w, i),
        deletions(i).contains(t),
    ensures
        derives(w, t),
{
    let n = choose|n: nat| #[trigger] within(w, n).contains(i);
    assert(within(w, n + 1).contains(t));
}

/// Removing up to `a` characters and then up to `b` more removes up to `a + b`.
pub proof fn lemma_within_trans(q: Seq<char>, s: Seq<char>, t: Seq<char>, a: nat, b: nat)
    requires
        within(q, a).contains(s),
        within(s, b).contains(t),
    ensures
        within(q, a + b).contains(t),
    decreases b,
{
    if b == 0 {
        lemma_within_grows(q, a + b, a);
    } else {
        let prev = within(s, (b - 1) as nat);
        if prev.contains(t) {
            lemma_within_trans(q, s, t, a, (b - 1) as nat);
            lemma_within_grows(q, a + b, (a + b - 1) as nat);
        } else {
            let u = choose|u: Seq<char>| prev.contains(u) && deletions(u).contains(t);
            lemma_within_trans(q, s, u, a, (b - 1) as nat);
            assert(within(q, (a + b - 1) as nat).contains(u));
        }
    }
}

} // verus!
