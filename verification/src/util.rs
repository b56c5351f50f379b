use vstd::prelude::*;

verus! {

/// True iff `set` holds `c`.
pub fn contains_char(set: &Vec<char>, c: char) -> (r: bool)
    ensures
        r == set@.contains(c),
{
    let mut i: usize = 0;
    while i < set.len()
        invariant
            0 <= i <= set@.len(),
            forall|j: int| 0 <= j < i ==> set@[j] != c,
        decreases set@.len() - i,
    {
        if set[i] == c {
            return true;
        }
        i = i + 1;
    }
    false
}

/// True iff the two character vectors hold the same characters in the
/// same order.
pub fn eq_chars(a: &Vec<char>, b: &Vec<char>) -> (r: bool)
    ensures
        r == (a@ == b@),
{
    if a.len() != b.len() {
        return false;
    }
    let mut i: usize = 0;
    while i < a.len()
        invariant
            0 <= i <= a@.len(),
            a@.len() == b@.len(),
            forall|j: int| 0 <= j < i ==> a@[j] == b@[j],
        decreases a@.len() - i,
    {
        if a[i] != b[i] {
            return false;
        }
        i = i + 1;
    }
    proof {
        assert(a@ =~= b@);
    }
    true
}

/// True iff every character of `v` is a member of `set`.
pub fn contains_all(set: &Vec<char>, v: &Vec<char>) -> (r: bool)
    ensures
        r == forall|j: int| 0 <= j < v@.len() ==> set@.contains(#[trigger] v@[j]),
{
    let mut i: usize = 0;
    while i < v.len()
        invariant
            0 <= i <= v@.len(),
            forall|j: int| 0 <= j < i ==> set@.contains(#[trigger] v@[j]),
        decreases v@.len() - i,
    {
        if !contains_char(set, v[i]) {
            return false;
        }
        i = i + 1;
    }
    true
}

/// The view of an optional character vector, with absence standing
/// for the empty derivation.
pub open spec fn opt_chars_view(o: &Option<Vec<char>>) -> Option<Seq<char>> {
    match o {
        Some(v) => Some(v@),
        None => None,
    }
}

/// True iff the two optional character vectors are equal as values.
pub fn eq_opt_chars(a: &Option<Vec<char>>, b: &Option<Vec<char>>) -> (r: bool)
    ensures
        r == (opt_chars_view(a) == opt_chars_view(b)),
{
    match (a, b) {
        (None, None) => true,
        (Some(x), Some(y)) => eq_chars(x, y),
        _ => false,
    }
}

/// The characters of a string slice as a vector.
pub fn to_chars(s: &str) -> (r: Vec<char>)
    ensures
        r@ == s@,
{
    let n = s.unicode_len();
    let mut r: Vec<char> = Vec::new();
    let mut i: usize = 0;
    while i < n
        invariant
            0 <= i <= n,
            n == s@.len(),
            r@ == s@.take(i as int),
        decreases n - i,
    {
        let c = s.get_char(i);
        r.push(c);
        proof {
            assert(r@ =~= s@.take(i + 1 as int));
        }
        i = i + 1;
    }
    proof {
        assert(r@ =~= s@);
    }
    r
}

/// The first `n` characters of `s` as a fresh vector.
pub fn take_chars(s: &Vec<char>, n: usize) -> (r: Vec<char>)
    requires
        n <= s@.len(),
    ensures
        r@ == s@.take(n as int),
{
    let mut r: Vec<char> = Vec::new();
    let mut i: usize = 0;
    while i < n
        invariant
            0 <= i <= n <= s@.len(),
            r@ == s@.take(i as int),
        decreases n - i,
    {
        r.push(s[i]);
        proof {
            assert(r@ =~= s@.take(i + 1 as int));
        }
        i = i + 1;
    }
    r
}

/// The characters of `s` from position `n` on, as a fresh vector.
pub fn skip_chars(s: &Vec<char>, n: usize) -> (r: Vec<char>)
    requires
        n <= s@.len(),
    ensures
        r@ == s@.skip(n as int),
{
    let mut r: Vec<char> = Vec::new();
    let mut i: usize = n;
    while i < s.len()
        invariant
            n <= i <= s@.len(),
            r@ == s@.subrange(n as int, i as int),
        decreases s@.len() - i,
    {
        r.push(s[i]);
        proof {
            assert(r@ =~= s@.subrange(n as int, i + 1 as int));
        }
        i = i + 1;
    }
    proof {
        assert(r@ =~= s@.skip(n as int));
    }
    r
}

/// The characters of `s` from `from` (inclusive) to `to` (exclusive)
/// as a fresh vector.
pub fn sub_chars(s: &Vec<char>, from: usize, to: usize) -> (r: Vec<char>)
    requires
        from <= to <= s@.len(),
    ensures
        r@ == s@.subrange(from as int, to as int),
{
    let mut r: Vec<char> = Vec::new();
    let mut i: usize = from;
    while i < to
        invariant
            from <= i <= to <= s@.len(),
            r@ == s@.subrange(from as int, i as int),
        decreases to - i,
    {
        r.push(s[i]);
        proof {
            assert(r@ =~= s@.subrange(from as int, i + 1 as int));
        }
        i = i + 1;
    }
    r
}

/// The concatenation of two character vectors.
pub fn concat_chars(a: &Vec<char>, b: &Vec<char>) -> (r: Vec<char>)
    ensures
        r@ == a@ + b@,
{
    let mut r: Vec<char> = Vec::new();
    let mut i: usize = 0;
    while i < a.len()
        invariant
            0 <= i <= a@.len(),
            r@ == a@.take(i as int),
        decreases a@.len() - i,
    {
        r.push(a[i]);
        proof {
            assert(r@ =~= a@.take(i + 1 as int));
        }
        i = i + 1;
    }
    let mut j: usize = 0;
    while j < b.len()
        invariant
            0 <= j <= b@.len(),
            r@ == a@.take(a@.len() as int) + b@.take(j as int),
        decreases b@.len() - j,
    {
        r.push(b[j]);
        proof {
            assert(r@ =~= a@.take(a@.len() as int) + b@.take(j + 1 as int));
        }
        j = j + 1;
    }
    proof {
        assert(a@.take(a@.len() as int) + b@.take(b@.len() as int) =~= a@ + b@);
    }
    r
}

/// The set of optional character sequences held by a vector of
/// optional character vectors.
pub open spec fn opt_chars_set(rs: Seq<Option<Vec<char>>>) -> Set<Option<Seq<char>>> {
    Set::new(
        |x: Option<Seq<char>>|
            exists|j: int| 0 <= j < rs.len() && #[trigger] opt_chars_view(&rs[j]) == x,
    )
}

/// True iff no two entries of `rs` hold the same optional character
/// sequence.
pub open spec fn distinct_opts(rs: Seq<Option<Vec<char>>>) -> bool {
    forall|i: int, j: int|
        0 <= i < j < rs.len() ==> #[trigger] opt_chars_view(&rs[i]) != #[trigger] opt_chars_view(
            &rs[j],
        )
}

/// True iff `v` holds an entry with the same optional character
/// sequence as `x`.
pub fn contains_opt_chars(v: &Vec<Option<Vec<char>>>, x: &Option<Vec<char>>) -> (r: bool)
    ensures
        r == opt_chars_set(v@).contains(opt_chars_view(x)),
{
    let mut i: usize = 0;
    while i < v.len()
        invariant
            0 <= i <= v@.len(),
            forall|j: int| 0 <= j < i ==> #[trigger] opt_chars_view(&v@[j]) != opt_chars_view(x),
        decreases v@.len() - i,
    {
        if eq_opt_chars(&v[i], x) {
            proof {
                assert(opt_chars_view(&v@[i as int]) == opt_chars_view(x));
            }
            return true;
        }
        i = i + 1;
    }
    proof {
        if opt_chars_set(v@).contains(opt_chars_view(x)) {
            let j = choose|j: int|
                0 <= j < v@.len() && #[trigger] opt_chars_view(&v@[j]) == opt_chars_view(x);
            assert(false);
        }
    }
    false
}

/// Appends `x` to `v` unless an entry with the same view is present,
/// so the vector stays duplicate-free as a set of optional strings.
pub fn push_unique_opt(v: &mut Vec<Option<Vec<char>>>, x: Option<Vec<char>>)
    ensures
        opt_chars_set(final(v)@) == opt_chars_set(old(v)@).insert(opt_chars_view(&x)),
        distinct_opts(old(v)@) ==> distinct_opts(final(v)@),
{
    let ghost xv = opt_chars_view(&x);
    if !contains_opt_chars(v, &x) {
        v.push(x);
        proof {
            assert(opt_chars_view(&v@[v@.len() - 1]) == xv);
            assert forall|t: Option<Seq<char>>| #[trigger] opt_chars_set(v@).contains(t) implies opt_chars_set(
                old(v)@,
            ).insert(xv).contains(t) by {
                let j = choose|j: int| 0 <= j < v@.len() && #[trigger] opt_chars_view(&v@[j]) == t;
                if j < v@.len() - 1 {
                    assert(opt_chars_view(&old(v)@[j]) == t);
                }
            }
            assert forall|t: Option<Seq<char>>|
                opt_chars_set(old(v)@).insert(xv).contains(t) implies #[trigger] opt_chars_set(
                v@,
            ).contains(t) by {
                if opt_chars_set(old(v)@).contains(t) {
                    let j = choose|j: int|
                        0 <= j < old(v)@.len() && #[trigger] opt_chars_view(&old(v)@[j]) == t;
                    assert(opt_chars_view(&v@[j]) == t);
                }
            }
            assert(opt_chars_set(v@) =~= opt_chars_set(old(v)@).insert(xv));
            if distinct_opts(old(v)@) {
                assert forall|i: int, j: int| 0 <= i < j < v@.len() implies #[trigger] opt_chars_view(
                    &v@[i],
                ) != #[trigger] opt_chars_view(&v@[j]) by {
                    if j == v@.len() - 1 {
                        assert(!opt_chars_set(old(v)@).contains(xv));
                        assert(opt_chars_view(&old(v)@[i]) == opt_chars_view(&v@[i]));
                    }
                }
            }
        }
    } else {
        proof {
            assert(opt_chars_set(v@) =~= opt_chars_set(old(v)@).insert(xv));
        }
    }
}

/// The set of character sequences held by a vector of character
/// vectors.
pub open spec fn chars_set(rs: Seq<Vec<char>>) -> Set<Seq<char>> {
    Set::new(|t: Seq<char>| exists|j: int| 0 <= j < rs.len() && #[trigger] rs[j]@ == t)
}

/// Pushing a vector adds exactly its character sequence to the set.
pub proof fn lemma_chars_set_push(rs: Seq<Vec<char>>, v: Vec<char>)
    ensures
        chars_set(rs.push(v)) == chars_set(rs).insert(v@),
{
    assert forall|t: Seq<char>| #[trigger] chars_set(rs.push(v)).contains(t) implies chars_set(
        rs,
    ).insert(v@).contains(t) by {
        let j = choose|j: int| 0 <= j < rs.push(v).len() && #[trigger] rs.push(v)[j]@ == t;
        if j < rs.len() {
            assert(rs[j]@ == t);
        }
    }
    assert forall|t: Seq<char>| chars_set(rs).insert(v@).contains(t) implies #[trigger] chars_set(
        rs.push(v),
    ).contains(t) by {
        if chars_set(rs).contains(t) {
            let j = choose|j: int| 0 <= j < rs.len() && #[trigger] rs[j]@ == t;
            assert(rs.push(v)[j]@ == t);
        } else {
            assert(rs.push(v)[rs.len() as int]@ == t);
        }
    }
    assert(chars_set(rs.push(v)) =~= chars_set(rs).insert(v@));
}

/// A fresh copy of a character vector.
pub fn copy_chars(v: &Vec<char>) -> (r: Vec<char>)
    ensures
        r@ == v@,
{
    let r = take_chars(v, v.len());
    proof {
        assert(v@.take(v@.len() as int) =~= v@);
    }
    r
}

/// The optional character sequences that wrap the members of a set of
/// character sequences.
pub open spec fn some_set(s: Set<Seq<char>>) -> Set<Option<Seq<char>>> {
    Set::new(
        |x: Option<Seq<char>>|
            match x {
                Some(t) => s.contains(t),
                None => false,
            },
    )
}

/// Adds every sequence of `tps`, wrapped in `Some`, to the set held
/// by `acc`.
pub fn push_prefixes(acc: &mut Vec<Option<Vec<char>>>, tps: &Vec<Vec<char>>)
    ensures
        opt_chars_set(final(acc)@) == opt_chars_set(old(acc)@).union(some_set(chars_set(tps@))),
        distinct_opts(old(acc)@) ==> distinct_opts(final(acc)@),
{
    let ghost base = opt_chars_set(old(acc)@);
    let mut j: usize = 0;
    while j < tps.len()
        invariant
            0 <= j <= tps@.len(),
            opt_chars_set(acc@) == base.union(some_set(chars_set(tps@.take(j as int)))),
            distinct_opts(old(acc)@) ==> distinct_opts(acc@),
        decreases tps@.len() - j,
    {
        let c = copy_chars(&tps[j]);
        proof {
            assert(c@ == tps@[j as int]@);
        }
        push_unique_opt(acc, Some(c));
        proof {
            assert(tps@.take(j + 1 as int) =~= tps@.take(j as int).push(tps@[j as int]));
            lemma_chars_set_push(tps@.take(j as int), tps@[j as int]);
            assert forall|x: Option<Seq<char>>|
                some_set(chars_set(tps@.take(j + 1 as int))).contains(x) implies some_set(
                chars_set(tps@.take(j as int)),
            ).insert(Some(tps@[j as int]@)).contains(x) by {
                match x {
                    Some(t) => {
                        assert(chars_set(tps@.take(j as int)).insert(tps@[j as int]@).contains(t));
                    },
                    None => {
                    },
                }
            }
            assert forall|x: Option<Seq<char>>|
                some_set(chars_set(tps@.take(j as int))).insert(
                    Some(tps@[j as int]@),
                ).contains(x) implies some_set(chars_set(tps@.take(j + 1 as int))).contains(x) by {
                match x {
                    Some(t) => {
                        assert(chars_set(tps@.take(j as int).push(tps@[j as int])).contains(t));
                    },
                    None => {
                        assert(some_set(chars_set(tps@.take(j as int))).contains(x));
                    },
                }
            }
            assert(opt_chars_set(acc@) =~= base.union(
                some_set(chars_set(tps@.take(j + 1 as int))),
            ));
        }
        j = j + 1;
    }
    proof {
        assert(tps@.take(tps@.len() as int) =~= tps@);
    }
}

/// True iff no two entries of `rs` hold the same character sequence.
pub open spec fn distinct_chars(rs: Seq<Vec<char>>) -> bool {
    forall|i: int, j: int| 0 <= i < j < rs.len() ==> #[trigger] rs[i]@ != #[trigger] rs[j]@
}

/// True iff `v` holds an entry with the same characters as `x`.
pub fn contains_chars_vec(v: &Vec<Vec<char>>, x: &Vec<char>) -> (r: bool)
    ensures
        r == chars_set(v@).contains(x@),
{
    let mut i: usize = 0;
    while i < v.len()
        invariant
            0 <= i <= v@.len(),
            forall|j: int| 0 <= j < i ==> #[trigger] v@[j]@ != x@,
        decreases v@.len() - i,
    {
        if eq_chars(&v[i], x) {
            assert(v@[i as int]@ == x@);
            return true;
        }
        i = i + 1;
    }
    proof {
        if chars_set(v@).contains(x@) {
            let j = choose|j: int| 0 <= j < v@.len() && #[trigger] v@[j]@ == x@;
            assert(false);
        }
    }
    false
}

/// Appends `x` to `v` unless an entry with the same characters is
/// present, so the vector stays duplicate-free as a set of strings.
pub fn push_unique_chars(v: &mut Vec<Vec<char>>, x: Vec<char>)
    ensures
        chars_set(final(v)@) == chars_set(old(v)@).insert(x@),
        distinct_chars(old(v)@) ==> distinct_chars(final(v)@),
{
    let ghost xv = x@;
    if !contains_chars_vec(v, &x) {
        v.push(x);
        proof {
            lemma_chars_set_push(old(v)@, v@[v@.len() - 1]);
            assert(v@ =~= old(v)@.push(v@[v@.len() - 1]));
            if distinct_chars(old(v)@) {
                assert forall|i: int, j: int| 0 <= i < j < v@.len() implies #[trigger] v@[i]@
                    != #[trigger] v@[j]@ by {
                    if j == v@.len() - 1 {
                        assert(!chars_set(old(v)@).contains(xv));
                        assert(old(v)@[i]@ == v@[i]@);
                    }
                }
            }
        }
    } else {
        proof {
            assert(chars_set(v@) =~= chars_set(old(v)@).insert(xv));
        }
    }
}

/// Adds a copy of every entry of `src` to the set held by `acc`.
pub fn push_all_chars(acc: &mut Vec<Vec<char>>, src: &Vec<Vec<char>>)
    ensures
        chars_set(final(acc)@) == chars_set(old(acc)@).union(chars_set(src@)),
        distinct_chars(old(acc)@) ==> distinct_chars(final(acc)@),
{
    let ghost base = chars_set(old(acc)@);
    let mut j: usize = 0;
    while j < src.len()
        invariant
            0 <= j <= src@.len(),
            chars_set(acc@) == base.union(chars_set(src@.take(j as int))),
            distinct_chars(old(acc)@) ==> distinct_chars(acc@),
        decreases src@.len() - j,
    {
        let c = copy_chars(&src[j]);
        push_unique_chars(acc, c);
        proof {
            assert(src@.take(j + 1 as int) =~= src@.take(j as int).push(src@[j as int]));
            lemma_chars_set_push(src@.take(j as int), src@[j as int]);
            assert(chars_set(acc@) =~= base.union(chars_set(src@.take(j + 1 as int))));
        }
        j = j + 1;
    }
    proof {
        assert(src@.take(src@.len() as int) =~= src@);
    }
}

/// Adds the non-epsilon members of the optional-string set held by
/// `sfs` to the string set held by `acc`.
pub fn push_nonnull(acc: &mut Vec<Vec<char>>, sfs: &Vec<Option<Vec<char>>>)
    ensures
        chars_set(final(acc)@) == chars_set(old(acc)@).union(
            Set::new(|t: Seq<char>| opt_chars_set(sfs@).contains(Some(t))),
        ),
        distinct_chars(old(acc)@) ==> distinct_chars(final(acc)@),
{
    let ghost base = chars_set(old(acc)@);
    let mut j: usize = 0;
    while j < sfs.len()
        invariant
            0 <= j <= sfs@.len(),
            chars_set(acc@) == base.union(
                Set::new(|t: Seq<char>| opt_chars_set(sfs@.take(j as int)).contains(Some(t))),
            ),
            distinct_chars(old(acc)@) ==> distinct_chars(acc@),
        decreases sfs@.len() - j,
    {
        let ghost before = chars_set(acc@);
        match &sfs[j] {
            Some(cs) => {
                let c = copy_chars(cs);
                push_unique_chars(acc, c);
            },
            None => {},
        }
        proof {
            let upto = Set::new(
                |t: Seq<char>| opt_chars_set(sfs@.take(j as int)).contains(Some(t)),
            );
            let upto1 = Set::new(
                |t: Seq<char>| opt_chars_set(sfs@.take(j + 1 as int)).contains(Some(t)),
            );
            assert forall|u: Seq<char>| #[trigger] upto1.contains(u) implies chars_set(
                acc@,
            ).contains(u) by {
                let j2 = choose|j2: int|
                    0 <= j2 < j + 1 && #[trigger] opt_chars_view(&sfs@.take(j + 1 as int)[j2])
                        == Some(u);
                if j2 < j {
                    assert(opt_chars_view(&sfs@.take(j as int)[j2]) == Some(u));
                    assert(upto.contains(u));
                    assert(before.contains(u));
                } else {
                    assert(opt_chars_view(&sfs@[j as int]) == Some(u));
                }
            }
            assert forall|u: Seq<char>| #[trigger] chars_set(acc@).contains(u) implies base.union(
                upto1,
            ).contains(u) by {
                if before.contains(u) {
                    if upto.contains(u) {
                        let j2 = choose|j2: int|
                            0 <= j2 < j && #[trigger] opt_chars_view(&sfs@.take(j as int)[j2])
                                == Some(u);
                        assert(opt_chars_view(&sfs@.take(j + 1 as int)[j2]) == Some(u));
                        assert(upto1.contains(u));
                    }
                } else {
                    assert(opt_chars_view(&sfs@[j as int]) == Some(u));
                    assert(opt_chars_view(&sfs@.take(j + 1 as int)[j as int]) == Some(u));
                    assert(upto1.contains(u));
                }
            }
            assert(chars_set(acc@) =~= base.union(upto1));
        }
        j = j + 1;
    }
    proof {
        assert(sfs@.take(sfs@.len() as int) =~= sfs@);
    }
}

/// A fresh copy of an optional character vector.
pub fn copy_opt_chars(o: &Option<Vec<char>>) -> (r: Option<Vec<char>>)
    ensures
        opt_chars_view(&r) == opt_chars_view(o),
{
    match o {
        Some(v) => Some(copy_chars(v)),
        None => None,
    }
}

/// Pushing an optional vector adds exactly its view to the set.
pub proof fn lemma_opt_chars_set_push(rs: Seq<Option<Vec<char>>>, x: Option<Vec<char>>)
    ensures
        opt_chars_set(rs.push(x)) == opt_chars_set(rs).insert(opt_chars_view(&x)),
{
    assert forall|u: Option<Seq<char>>| #[trigger] opt_chars_set(rs.push(x)).contains(u) implies opt_chars_set(
        rs,
    ).insert(opt_chars_view(&x)).contains(u) by {
        let j = choose|j: int|
            0 <= j < rs.push(x).len() && #[trigger] opt_chars_view(&rs.push(x)[j]) == u;
        if j < rs.len() {
            assert(opt_chars_view(&rs[j]) == u);
        }
    }
    assert forall|u: Option<Seq<char>>|
        opt_chars_set(rs).insert(opt_chars_view(&x)).contains(u) implies #[trigger] opt_chars_set(
        rs.push(x),
    ).contains(u) by {
        if opt_chars_set(rs).contains(u) {
            let j = choose|j: int| 0 <= j < rs.len() && #[trigger] opt_chars_view(&rs[j]) == u;
            assert(opt_chars_view(&rs.push(x)[j]) == u);
        } else {
            assert(opt_chars_view(&rs.push(x)[rs.len() as int]) == u);
        }
    }
    assert(opt_chars_set(rs.push(x)) =~= opt_chars_set(rs).insert(opt_chars_view(&x)));
}

/// Adds a copy of every entry of `src` to the set held by `acc`.
pub fn push_all_opts(acc: &mut Vec<Option<Vec<char>>>, src: &Vec<Option<Vec<char>>>)
    ensures
        opt_chars_set(final(acc)@) == opt_chars_set(old(acc)@).union(opt_chars_set(src@)),
        distinct_opts(old(acc)@) ==> distinct_opts(final(acc)@),
{
    let ghost base = opt_chars_set(old(acc)@);
    let mut j: usize = 0;
    while j < src.len()
        invariant
            0 <= j <= src@.len(),
            opt_chars_set(acc@) == base.union(opt_chars_set(src@.take(j as int))),
            distinct_opts(old(acc)@) ==> distinct_opts(acc@),
        decreases src@.len() - j,
    {
        let c = copy_opt_chars(&src[j]);
        push_unique_opt(acc, c);
        proof {
            assert(src@.take(j + 1 as int) =~= src@.take(j as int).push(src@[j as int]));
            lemma_opt_chars_set_push(src@.take(j as int), src@[j as int]);
            assert(opt_chars_set(acc@) =~= base.union(opt_chars_set(src@.take(j + 1 as int))));
        }
        j = j + 1;
    }
    proof {
        assert(src@.take(src@.len() as int) =~= src@);
    }
}

/// The set of character sequences held by a vector of strings.
pub open spec fn strs_set(rs: Seq<String>) -> Set<Seq<char>> {
    Set::new(|t: Seq<char>| exists|j: int| 0 <= j < rs.len() && #[trigger] rs[j]@ == t)
}

/// True iff no two entries of `rs` hold the same text.
pub open spec fn distinct_strs(rs: Seq<String>) -> bool {
    forall|i: int, j: int| 0 <= i < j < rs.len() ==> #[trigger] rs[i]@ != #[trigger] rs[j]@
}

/// Renders every character vector as an owned string, preserving
/// order and the set of values held.
pub fn to_strings(v: &Vec<Vec<char>>) -> (r: Vec<String>)
    ensures
        r@.len() == v@.len(),
        forall|j: int| 0 <= j < v@.len() ==> #[trigger] r@[j]@ == v@[j]@,
        strs_set(r@) == chars_set(v@),
        distinct_chars(v@) ==> distinct_strs(r@),
{
    let mut r: Vec<String> = Vec::new();
    let mut i: usize = 0;
    while i < v.len()
        invariant
            0 <= i <= v@.len(),
            r@.len() == i,
            forall|j: int| 0 <= j < i ==> #[trigger] r@[j]@ == v@[j]@,
        decreases v@.len() - i,
    {
        let s = chars_to_string(&v[i]);
        r.push(s);
        i = i + 1;
    }
    proof {
        assert forall|t: Seq<char>| #[trigger] strs_set(r@).contains(t) implies chars_set(
            v@,
        ).contains(t) by {
            let j = choose|j: int| 0 <= j < r@.len() && #[trigger] r@[j]@ == t;
            assert(v@[j]@ == t);
        }
        assert forall|t: Seq<char>| #[trigger] chars_set(v@).contains(t) implies strs_set(
            r@,
        ).contains(t) by {
            let j = choose|j: int| 0 <= j < v@.len() && #[trigger] v@[j]@ == t;
            assert(r@[j]@ == t);
        }
        assert(strs_set(r@) =~= chars_set(v@));
    }
    r
}

/// The view of an optional string, with absence standing for the
/// empty derivation.
pub open spec fn opt_str_view(o: &Option<String>) -> Option<Seq<char>> {
    match o {
        Some(s) => Some(s@),
        None => None,
    }
}

/// The set of optional character sequences held by a vector of
/// optional strings.
pub open spec fn opt_strs_set(rs: Seq<Option<String>>) -> Set<Option<Seq<char>>> {
    Set::new(
        |x: Option<Seq<char>>|
            exists|j: int| 0 <= j < rs.len() && #[trigger] opt_str_view(&rs[j]) == x,
    )
}

/// True iff no two entries of `rs` hold the same optional string.
pub open spec fn distinct_str_opts(rs: Seq<Option<String>>) -> bool {
    forall|i: int, j: int|
        0 <= i < j < rs.len() ==> #[trigger] opt_str_view(&rs[i]) != #[trigger] opt_str_view(
            &rs[j],
        )
}

/// Renders every entry of an optional-character-vector set as an
/// optional string, preserving order and the set of values held.
pub fn to_opt_strings(v: &Vec<Option<Vec<char>>>) -> (r: Vec<Option<String>>)
    ensures
        r@.len() == v@.len(),
        forall|j: int|
            0 <= j < v@.len() ==> #[trigger] opt_str_view(&r@[j]) == opt_chars_view(&v@[j]),
        opt_strs_set(r@) == opt_chars_set(v@),
        distinct_opts(v@) ==> distinct_str_opts(r@),
{
    let mut r: Vec<Option<String>> = Vec::new();
    let mut i: usize = 0;
    while i < v.len()
        invariant
            0 <= i <= v@.len(),
            r@.len() == i,
            forall|j: int|
                0 <= j < i ==> #[trigger] opt_str_view(&r@[j]) == opt_chars_view(&v@[j]),
        decreases v@.len() - i,
    {
        match &v[i] {
            Some(cs) => {
                let s = chars_to_string(cs);
                r.push(Some(s));
                proof {
                    assert(opt_str_view(&r@[i as int]) == opt_chars_view(&v@[i as int]));
                }
            },
            None => {
                r.push(None);
                proof {
                    assert(opt_str_view(&r@[i as int]) == opt_chars_view(&v@[i as int]));
                }
            },
        }
        i = i + 1;
    }
    proof {
        assert forall|x: Option<Seq<char>>| #[trigger] opt_strs_set(r@).contains(x) implies opt_chars_set(
            v@,
        ).contains(x) by {
            let j = choose|j: int| 0 <= j < r@.len() && #[trigger] opt_str_view(&r@[j]) == x;
            assert(opt_chars_view(&v@[j]) == x);
        }
        assert forall|x: Option<Seq<char>>| #[trigger] opt_chars_set(v@).contains(x) implies opt_strs_set(
            r@,
        ).contains(x) by {
            let j = choose|j: int| 0 <= j < v@.len() && #[trigger] opt_chars_view(&v@[j]) == x;
            assert(opt_str_view(&r@[j]) == x);
        }
        assert(opt_strs_set(r@) =~= opt_chars_set(v@));
    }
    r
}

/// Appends `c` to `v` unless it is already present, so that vectors
/// used as character sets stay duplicate-free.
pub fn push_unique(v: &mut Vec<char>, c: char)
    ensures
        final(v)@.to_set() == old(v)@.to_set().insert(c),
{
    if !contains_char(v, c) {
        v.push(c);
        proof {
            assert forall|x: char| #[trigger] v@.contains(x) implies old(v)@.contains(x) || x == c by {
                let i = choose|i: int| 0 <= i < v@.len() && v@[i] == x;
                if i < v@.len() - 1 {
                    assert(old(v)@[i] == x);
                }
            }
            assert(v@[v@.len() - 1] == c);
            assert forall|x: char| old(v)@.contains(x) implies v@.contains(x) by {
                let i = choose|i: int| 0 <= i < old(v)@.len() && old(v)@[i] == x;
                assert(v@[i] == x);
            }
            assert(v@.to_set() =~= old(v)@.to_set().insert(c));
        }
    } else {
        proof {
            assert(v@.to_set() =~= old(v)@.to_set().insert(c));
        }
    }
}

/// Relies on String::push: appends the given character to the end of
/// the string.
#[verifier::external_body]
fn push_char(s: &mut String, c: char)
    ensures
        final(s)@ == old(s)@.push(c),
{
    s.push(c);
}

/// A character vector rendered as an owned string.
pub fn chars_to_string(v: &Vec<char>) -> (r: String)
    ensures
        r@ == v@,
{
    let mut r = String::new();
    let mut i: usize = 0;
    while i < v.len()
        invariant
            0 <= i <= v@.len(),
            r@ == v@.take(i as int),
        decreases v@.len() - i,
    {
        push_char(&mut r, v[i]);
        proof {
            assert(v@.take(i as int).push(v@[i as int]) =~= v@.take(i + 1 as int));
        }
        i = i + 1;
    }
    proof {
        assert(v@.take(v@.len() as int) =~= v@);
    }
    r
}

} // verus!
