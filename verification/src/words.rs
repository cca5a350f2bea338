//! Words as sequences of characters: the dictionary order on them, and what
//! it means for a list of strings to list a set of words.

use vstd::prelude::*;
use vstd::std_specs::iter::IteratorSpec;

verus! {

/// Whether `a` comes before `b` in the dictionary: at the first position
/// where they differ `a` has the smaller code point, or `a` ends there and
/// `b` goes on.
pub open spec fn precedes(a: Seq<char>, b: Seq<char>) -> bool
    decreases a.len(),
{
    if b.len() == 0 {
        false
    } else if a.len() == 0 {
        true
    } else if a[0] != b[0] {
        a[0] < b[0]
    } else {
        precedes(a.drop_first(), b.drop_first())
    }
}

/// Whether each entry of `out` comes before all later ones in the dictionary.
pub open spec fn ascending(out: Seq<Seq<char>>) -> bool {
    forall|i: int, j: int| 0 <= i < j < out.len() ==> precedes(out[i], out[j])
}

/// Whether `out` lists the set `words`: it holds exactly the words of the
/// set, each once, in dictionary order.
pub open spec fn lists(out: Seq<Seq<char>>, words: Set<Seq<char>>) -> bool {
    &&& ascending(out)
    &&& forall|w: Seq<char>| out.contains(w) <==> words.contains(w)
}

/// `String::push` of the standard library, which this crate takes on trust:
/// the string afterwards is the string before with `c` added at its end.
pub assume_specification[ String::push ](s: &mut String, c: char)
    ensures
        final(s)@ == old(s)@.push(c),
;

/// The character sequences that a list of strings holds.
pub open spec fn texts(strings: Seq<String>) -> Seq<Seq<char>> {
    Seq::new(strings.len(), |i: int| strings[i]@)
}

/// The characters of a string, one after the other.
pub fn characters(s: &str) -> (chars: Vec<char>)
    ensures
        chars@ == s@,
{
    let mut chars: Vec<char> = Vec::new();
    let mut rest = s.chars();
    loop
        invariant
            chars@.len() <= s@.len(),
            chars@ == s@.take(chars@.len() as int),
            rest.remaining() == s@.skip(chars@.len() as int),
        decreases s@.len() - chars@.len(),
    {
        match rest.next() {
            None => {
                assert(s@.take(chars@.len() as int) =~= s@);
                return chars;
            },
            Some(c) => {
                proof {
                    let n: int = chars@.len() as int;
                    assert(s@.skip(n).drop_first() =~= s@.skip(n + 1));
                    assert(s@.take(n).push(c) =~= s@.take(n + 1));
                }
                chars.push(c);
            },
        }
    }
}

/// Each word of `words` with `prefix` put before it.
pub open spec fn prefix_all(prefix: Seq<char>, words: Set<Seq<char>>) -> Set<Seq<char>> {
    Set::new(|v: Seq<char>| prefix.is_prefix_of(v) && words.contains(v.skip(prefix.len() as int)))
}

/// The words of `words` that start with the character `c`.
pub open spec fn starting(words: Set<Seq<char>>, c: char) -> Set<Seq<char>> {
    Set::new(|w: Seq<char>| words.contains(w) && w.len() > 0 && w[0] == c)
}

/// The words of `words` that start with one of the characters `firsts`.
pub open spec fn starting_any(words: Set<Seq<char>>, firsts: Seq<char>) -> Set<Seq<char>> {
    Set::new(|w: Seq<char>| words.contains(w) && w.len() > 0 && firsts.contains(w[0]))
}

/// Whether `w` starts with `prefix` and goes on after it.
pub open spec fn extends(w: Seq<char>, prefix: Seq<char>) -> bool {
    prefix.len() < w.len() && prefix.is_prefix_of(w)
}

/// No word comes before itself.
pub proof fn lemma_precedes_irreflexive(a: Seq<char>)
    ensures
        !precedes(a, a),
    decreases a.len(),
{
    if a.len() > 0 {
        lemma_precedes_irreflexive(a.drop_first());
    }
}

/// What comes before a word also comes before every word after it.
pub proof fn lemma_precedes_transitive(a: Seq<char>, b: Seq<char>, c: Seq<char>)
    requires
        precedes(a, b),
        precedes(b, c),
    ensures
        precedes(a, c),
    decreases a.len(),
{
    if a.len() > 0 && a[0] == b[0] && b[0] == c[0] {
        lemma_precedes_transitive(a.drop_first(), b.drop_first(), c.drop_first());
    }
}

/// Of two different words one comes before the other.
pub proof fn lemma_precedes_total(a: Seq<char>, b: Seq<char>)
    ensures
        a == b || precedes(a, b) || precedes(b, a),
    decreases a.len(),
{
    if a.len() > 0 && b.len() > 0 && a[0] == b[0] {
        lemma_precedes_total(a.drop_first(), b.drop_first());
        if a.drop_first() == b.drop_first() {
            assert(a =~= seq![a[0]] + a.drop_first());
            assert(b =~= seq![b[0]] + b.drop_first());
        }
    } else if a.len() == 0 && b.len() == 0 {
        assert(a =~= b);
    }
}

/// A common beginning does not change the order of two words.
pub proof fn lemma_precedes_after(p: Seq<char>, a: Seq<char>, b: Seq<char>)
    ensures
        precedes(p + a, p + b) <==> precedes(a, b),
    decreases p.len(),
{
    if p.len() == 0 {
        assert(p + a =~= a);
        assert(p + b =~= b);
    } else {
        assert((p + a).drop_first() =~= p.drop_first() + a);
        assert((p + b).drop_first() =~= p.drop_first() + b);
        lemma_precedes_after(p.drop_first(), a, b);
    }
}

/// A word comes before every word that it starts.
pub proof fn lemma_precedes_extension(w: Seq<char>, prefix: Seq<char>)
    requires
        extends(w, prefix),
    ensures
        precedes(prefix, w),
{
    let rest = w.skip(prefix.len() as int);
    assert(w =~= prefix + rest);
    assert(prefix =~= prefix + Seq::<char>::empty());
    lemma_precedes_after(prefix, Seq::<char>::empty(), rest);
}

/// Two words that go on differently after a common beginning are ordered by
/// the characters that follow it.
pub proof fn lemma_precedes_at(a: Seq<char>, b: Seq<char>, at: int)
    requires
        0 <= at < a.len(),
        at < b.len(),
        a.take(at) == b.take(at),
        a[at] < b[at],
    ensures
        precedes(a, b),
{
    let p = a.take(at);
    assert(a =~= p + a.skip(at));
    assert(b =~= p + b.skip(at));
    lemma_precedes_after(p, a.skip(at), b.skip(at));
}

/// Two words that start with beginnings of one length are ordered as the
/// beginnings are.
pub proof fn lemma_precedes_by_beginning(a: Seq<char>, b: Seq<char>, p: Seq<char>, q: Seq<char>)
    requires
        p.is_prefix_of(a),
        q.is_prefix_of(b),
        p.len() == q.len(),
        precedes(p, q),
    ensures
        precedes(a, b),
    decreases p.len(),
{
    if p.len() > 0 {
        assert(a[0] == p[0]);
        assert(b[0] == q[0]);
        if p[0] == q[0] {
            assert(p.drop_first().is_prefix_of(a.drop_first())) by {
                assert(a.drop_first().subrange(0, p.len() - 1) =~= p.drop_first());
            }
            assert(q.drop_first().is_prefix_of(b.drop_first())) by {
                assert(b.drop_first().subrange(0, q.len() - 1) =~= q.drop_first());
            }
            lemma_precedes_by_beginning(
                a.drop_first(),
                b.drop_first(),
                p.drop_first(),
                q.drop_first(),
            );
        }
    }
}

/// A list in dictionary order holds no word twice.
pub proof fn lemma_ascending_distinct(out: Seq<Seq<char>>)
    requires
        ascending(out),
    ensures
        out.no_duplicates(),
{
    assert forall|i: int, j: int| 0 <= i < out.len() && 0 <= j < out.len() && i != j implies out[i]
        != out[j] by {
        lemma_precedes_irreflexive(out[i]);
        if i < j {
            assert(precedes(out[i], out[j]));
        } else {
            assert(precedes(out[j], out[i]));
        }
    }
}

/// A set of words has at most one list: two lists of the same set are equal.
pub proof fn lemma_lists_unique(a: Seq<Seq<char>>, b: Seq<Seq<char>>, words: Set<Seq<char>>)
    requires
        lists(a, words),
        lists(b, words),
    ensures
        a == b,
    decreases a.len(),
{
    if a.len() == 0 {
        if b.len() > 0 {
            assert(b.contains(b[0]));
            assert(a.contains(b[0]));
        }
        assert(a =~= b);
    } else {
        assert(a.contains(a[0]));
        assert(b.contains(a[0]));
        let k = choose|k: int| 0 <= k < b.len() && b[k] == a[0];
        assert(b.contains(b[0]));
        assert(a.contains(b[0]));
        let m = choose|m: int| 0 <= m < a.len() && a[m] == b[0];
        if k > 0 {
            assert(precedes(b[0], b[k]));
            if m > 0 {
                assert(precedes(a[0], a[m]));
                lemma_precedes_transitive(a[0], b[0], a[0]);
            }
            lemma_precedes_irreflexive(a[0]);
        }
        assert(a[0] == b[0]);
        let first = a[0];
        let rest = words.remove(first);
        lemma_ascending_distinct(a);
        lemma_ascending_distinct(b);
        assert(lists(a.drop_first(), rest)) by {
            assert forall|w: Seq<char>| a.drop_first().contains(w) <==> rest.contains(w) by {
                if a.drop_first().contains(w) {
                    let i = choose|i: int| 0 <= i < a.drop_first().len() && a.drop_first()[i] == w;
                    assert(a[i + 1] == w);
                    assert(a.contains(w));
                }
                if rest.contains(w) {
                    assert(a.contains(w));
                    let i = choose|i: int| 0 <= i < a.len() && a[i] == w;
                    assert(a.drop_first()[i - 1] == w);
                }
            }
            assert forall|i: int, j: int| 0 <= i < j < a.drop_first().len() implies precedes(
                a.drop_first()[i],
                a.drop_first()[j],
            ) by {
                assert(precedes(a[i + 1], a[j + 1]));
            }
        }
        assert(lists(b.drop_first(), rest)) by {
            assert forall|w: Seq<char>| b.drop_first().contains(w) <==> rest.contains(w) by {
                if b.drop_first().contains(w) {
                    let i = choose|i: int| 0 <= i < b.drop_first().len() && b.drop_first()[i] == w;
                    assert(b[i + 1] == w);
                    assert(b.contains(w));
                }
                if rest.contains(w) {
                    assert(b.contains(w));
                    let i = choose|i: int| 0 <= i < b.len() && b[i] == w;
                    assert(b.drop_first()[i - 1] == w);
                }
            }
            assert forall|i: int, j: int| 0 <= i < j < b.drop_first().len() implies precedes(
                b.drop_first()[i],
                b.drop_first()[j],
            ) by {
                assert(precedes(b[i + 1], b[j + 1]));
            }
        }
        lemma_lists_unique(a.drop_first(), b.drop_first(), rest);
        assert(a =~= seq![first] + a.drop_first());
        assert(b =~= seq![first] + b.drop_first());
    }
}

/// The empty list lists the empty set, and nothing else does.
pub proof fn lemma_lists_empty(out: Seq<Seq<char>>)
    ensures
        lists(out, Set::empty()) <==> out.len() == 0,
{
    if out.len() > 0 {
        assert(out.contains(out[0]));
    }
}

/// A list followed by a list of words that all come later lists both sets
/// together.
pub proof fn lemma_lists_append(
    out: Seq<Seq<char>>,
    words: Set<Seq<char>>,
    more: Seq<Seq<char>>,
    later: Set<Seq<char>>,
)
    requires
        lists(out, words),
        lists(more, later),
        forall|x: Seq<char>, y: Seq<char>|
            words.contains(x) && later.contains(y) ==> precedes(x, y),
    ensures
        lists(out + more, words.union(later)),
{
    let all = out + more;
    assert forall|i: int, j: int| 0 <= i < j < all.len() implies precedes(all[i], all[j]) by {
        if j < out.len() {
            assert(precedes(out[i], out[j]));
        } else if i >= out.len() {
            assert(precedes(more[i - out.len()], more[j - out.len()]));
        } else {
            assert(out.contains(out[i]));
            assert(more.contains(more[j - out.len()]));
        }
    }
    assert forall|w: Seq<char>| all.contains(w) <==> words.union(later).contains(w) by {
        if all.contains(w) {
            let i = choose|i: int| 0 <= i < all.len() && all[i] == w;
            if i < out.len() {
                assert(out.contains(out[i]));
            } else {
                assert(more.contains(more[i - out.len()]));
            }
        }
        if words.contains(w) {
            let i = choose|i: int| 0 <= i < out.len() && out[i] == w;
            assert(all[i] == w);
        }
        if later.contains(w) {
            let i = choose|i: int| 0 <= i < more.len() && more[i] == w;
            assert(all[i + out.len()] == w);
        }
    }
}

/// A word starts with `acc` and then `c` exactly if it starts with `acc` and
/// has `c` next.
pub proof fn lemma_prefix_push(acc: Seq<char>, c: char, v: Seq<char>)
    ensures
        acc.push(c).is_prefix_of(v) <==> acc.is_prefix_of(v) && acc.len() < v.len() && v[acc.len() as int]
            == c,
        acc.len() < v.len() ==> v.skip(acc.len() as int + 1) == v.skip(acc.len() as int).drop_first(),
        acc.is_prefix_of(v) ==> v.take(acc.len() as int) == acc,
{
    let n: int = acc.len() as int;
    if acc.push(c).is_prefix_of(v) {
        assert(acc =~= v.subrange(0, n)) by {
            assert forall|i: int| 0 <= i < n implies acc[i] == v[i] by {
                assert(acc.push(c)[i] == v.subrange(0, n + 1)[i]);
            }
        }
        assert(acc.push(c)[n] == v.subrange(0, n + 1)[n]);
    }
    if acc.is_prefix_of(v) && n < v.len() && v[n] == c {
        assert(acc.push(c) =~= v.subrange(0, n + 1)) by {
            assert forall|i: int| 0 <= i < n implies acc[i] == v[i] by {
                assert(acc[i] == v.subrange(0, n)[i]);
            }
        }
    }
    if n < v.len() {
        assert(v.skip(n + 1) =~= v.skip(n).drop_first());
    }
    if acc.is_prefix_of(v) {
        assert(v.take(n) =~= acc);
    }
}

/// Putting nothing before each word of a set gives the set.
pub proof fn lemma_prefix_all_empty(words: Set<Seq<char>>)
    ensures
        prefix_all(Seq::<char>::empty(), words) == words,
{
    let e = Seq::<char>::empty();
    assert forall|v: Seq<char>| prefix_all(e, words).contains(v) <==> words.contains(v) by {
        assert(v.skip(0) =~= v);
        assert(e =~= v.subrange(0, 0));
    }
    assert(prefix_all(e, words) =~= words);
}

/// Where every word of a set starts with one of `firsts`, the words that
/// start with one of them are all words of the set.
pub proof fn lemma_starting_any_all(words: Set<Seq<char>>, firsts: Seq<char>)
    requires
        forall|w: Seq<char>| words.contains(w) ==> w.len() > 0 && firsts.contains(w[0]),
    ensures
        starting_any(words, firsts) == words,
{
    assert(starting_any(words, firsts) =~= words);
}

/// Where no word of a set starts with `c`, one more first character `c`
/// adds nothing.
pub proof fn lemma_starting_none(words: Set<Seq<char>>, firsts: Seq<char>, c: char)
    requires
        starting(words, c) == Set::<Seq<char>>::empty(),
    ensures
        starting_any(words, firsts.push(c)) == starting_any(words, firsts),
{
    assert forall|w: Seq<char>| starting_any(words, firsts.push(c)).contains(w) implies starting_any(
        words,
        firsts,
    ).contains(w) by {
        let i = choose|i: int| 0 <= i < firsts.push(c).len() && firsts.push(c)[i] == w[0];
        if i == firsts.len() {
            assert(starting(words, c).contains(w));
        } else {
            assert(firsts[i] == w[0]);
        }
    }
    assert forall|w: Seq<char>| starting_any(words, firsts).contains(w) implies starting_any(
        words,
        firsts.push(c),
    ).contains(w) by {
        let i = choose|i: int| 0 <= i < firsts.len() && firsts[i] == w[0];
        assert(firsts.push(c)[i] == w[0]);
    }
    assert(starting_any(words, firsts.push(c)) =~= starting_any(words, firsts));
}

/// One step of listing a set of words by their first characters, in
/// ascending order: after the words that start with smaller characters
/// come the word that is `c` alone, if it is one, and then the words that go
/// on after `c`. Each word has `acc` put before it.
pub proof fn lemma_lists_group(
    out: Seq<Seq<char>>,
    words: Set<Seq<char>>,
    acc: Seq<char>,
    firsts: Seq<char>,
    c: char,
    end: bool,
    deeper_list: Seq<Seq<char>>,
    deeper: Set<Seq<char>>,
)
    requires
        lists(out, prefix_all(acc, starting_any(words, firsts))),
        forall|j: int| 0 <= j < firsts.len() ==> firsts[j] < c,
        lists(deeper_list, prefix_all(acc.push(c), deeper)),
        !deeper.contains(Seq::<char>::empty()),
        forall|w: Seq<char>|
            starting(words, c).contains(w) <==> (end && w == seq![c]) || prefix_all(
                seq![c],
                deeper,
            ).contains(w),
    ensures
        lists(
            out + (if end {
                seq![acc.push(c)]
            } else {
                Seq::<Seq<char>>::empty()
            }) + deeper_list,
            prefix_all(acc, starting_any(words, firsts.push(c))),
        ),
{
    let n: int = acc.len() as int;
    let word = acc.push(c);
    let sofar = prefix_all(acc, starting_any(words, firsts));
    let head = if end {
        seq![word]
    } else {
        Seq::<Seq<char>>::empty()
    };
    let head_set = if end {
        set![word]
    } else {
        Set::<Seq<char>>::empty()
    };
    let deep_set = prefix_all(word, deeper);
    let group = head_set.union(deep_set);
    let goal = prefix_all(acc, starting_any(words, firsts.push(c)));
    assert(lists(head, head_set)) by {
        if end {
            lemma_lists_one(word);
        } else {
            lemma_lists_empty(head);
        }
    }
    assert forall|y: Seq<char>| deep_set.contains(y) implies extends(y, word) by {
        if y.len() == word.len() {
            assert(y.skip(word.len() as int) =~= Seq::<char>::empty());
        }
    }
    assert forall|x: Seq<char>, y: Seq<char>|
        head_set.contains(x) && deep_set.contains(y) implies precedes(x, y) by {
        lemma_precedes_extension(y, word);
    }
    lemma_lists_append(head, head_set, deeper_list, deep_set);
    assert forall|y: Seq<char>| group.contains(y) implies word.is_prefix_of(y) by {
        if head_set.contains(y) {
            assert(word =~= y.subrange(0, word.len() as int));
        }
    }
    assert forall|x: Seq<char>, y: Seq<char>|
        sofar.contains(x) && group.contains(y) implies precedes(x, y) by {
        let w = x.skip(n);
        let j = choose|j: int| 0 <= j < firsts.len() && firsts[j] == w[0];
        assert(x[n] == w[0]);
        lemma_prefix_push(acc, c, y);
        lemma_prefix_push(acc, c, x);
        lemma_precedes_at(x, y, n);
    }
    lemma_lists_append(out, sofar, head + deeper_list, group);
    assert(out + head + deeper_list =~= out + (head + deeper_list));
    assert forall|v: Seq<char>| goal.contains(v) <==> sofar.union(group).contains(v) by {
        lemma_prefix_push(acc, c, v);
        let w = v.skip(n);
        if acc.is_prefix_of(v) && w.len() > 0 {
            assert(v[n] == w[0]);
            assert(v =~= acc + w);
            assert(seq![c].is_prefix_of(w) <==> w[0] == c) by {
                if w[0] == c {
                    assert(seq![c] =~= w.subrange(0, 1));
                } else if seq![c].is_prefix_of(w) {
                    assert(seq![c][0] == w.subrange(0, 1)[0]);
                }
            }
            assert(w.skip(1) =~= w.drop_first());
            assert(w == seq![c] <==> v == word) by {
                if w == seq![c] {
                    assert(v =~= word);
                }
                if v == word {
                    assert(w =~= seq![c]);
                }
            }
            if goal.contains(v) {
                let i = choose|i: int| 0 <= i < firsts.push(c).len() && firsts.push(c)[i] == w[0];
                if i < firsts.len() {
                    assert(firsts[i] == w[0]);
                    assert(sofar.contains(v));
                } else {
                    assert(starting(words, c).contains(w));
                    assert(group.contains(v));
                }
            }
            if sofar.contains(v) {
                let i = choose|i: int| 0 <= i < firsts.len() && firsts[i] == w[0];
                assert(firsts.push(c)[i] == w[0]);
            }
            if group.contains(v) {
                assert(w[0] == c);
                assert(starting(words, c).contains(w));
                assert(firsts.push(c)[firsts.len() as int] == c);
            }
        } else {
            if group.contains(v) {
                assert(false);
            }
        }
    }
    assert(goal =~= sofar.union(group));
}

/// The list with one word lists the set with that word.
pub proof fn lemma_lists_one(w: Seq<char>)
    ensures
        lists(seq![w], set![w]),
{
    assert forall|v: Seq<char>| seq![w].contains(v) <==> set![w].contains(v) by {
        if v == w {
            assert(seq![w][0] == v);
        }
    }
}

} // verus!
