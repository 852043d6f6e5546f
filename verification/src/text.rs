use vstd::prelude::*;

verus! {

/// `a` strictly precedes `b` lexicographically, ordering characters by their
/// scalar value. This is the order in which catalog display names are kept.
pub open spec fn lex_lt(a: Seq<char>, b: Seq<char>) -> bool
    decreases a.len(),
{
    if b.len() == 0 {
        false
    } else if a.len() == 0 {
        true
    } else if a[0] < b[0] {
        true
    } else if a[0] == b[0] {
        lex_lt(a.drop_first(), b.drop_first())
    } else {
        false
    }
}

/// The needle `n` occurs in the haystack `h` starting at position `i`.
pub open spec fn contains_at(h: Seq<char>, n: Seq<char>, i: int) -> bool {
    0 <= i && i + n.len() <= h.len() && h.subrange(i, i + n.len()) == n
}

/// The needle `n` occurs somewhere in the haystack `h`.
pub open spec fn contains_seq(h: Seq<char>, n: Seq<char>) -> bool {
    exists|i: int| contains_at(h, n, i)
}

/// Dropping an equal prefix from both sequences does not change how they
/// compare.
proof fn lemma_lex_lt_skip(a: Seq<char>, b: Seq<char>, i: int)
    requires
        0 <= i <= a.len(),
        i <= b.len(),
        forall|j: int| 0 <= j < i ==> a[j] == b[j],
    ensures
        lex_lt(a, b) == lex_lt(a.skip(i), b.skip(i)),
    decreases i,
{
    if i > 0 {
        assert(a.len() > 0 && b.len() > 0);
        assert(a[0] == b[0]);
        lemma_lex_lt_skip(a.drop_first(), b.drop_first(), i - 1);
        assert(a.drop_first().skip(i - 1) =~= a.skip(i));
        assert(b.drop_first().skip(i - 1) =~= b.skip(i));
    } else {
        assert(a.skip(0) =~= a);
        assert(b.skip(0) =~= b);
    }
}

/// Decides `lex_lt` on two string slices, character by character.
pub fn str_lex_lt(a: &str, b: &str) -> (r: bool)
    ensures
        r == lex_lt(a@, b@),
{
    let alen = a.unicode_len();
    let blen = b.unicode_len();
    let mut i: usize = 0;
    loop
        invariant
            alen == a@.len(),
            blen == b@.len(),
            0 <= i <= alen,
            i <= blen,
            forall|j: int| 0 <= j < i ==> a@[j] == b@[j],
        decreases alen - i,
    {
        if i == alen || i == blen {
            proof {
                lemma_lex_lt_skip(a@, b@, i as int);
            }
            return i == alen && i < blen;
        }
        let ca = a.get_char(i);
        let cb = b.get_char(i);
        if ca != cb {
            proof {
                lemma_lex_lt_skip(a@, b@, i as int);
                assert(a@.skip(i as int)[0] == a@[i as int]);
                assert(b@.skip(i as int)[0] == b@[i as int]);
            }
            return ca < cb;
        }
        i = i + 1;
    }
}

/// Decides whether the needle occurs in the haystack, by checking every
/// starting position.
pub fn str_contains_sub(h: &str, n: &str) -> (r: bool)
    ensures
        r == contains_seq(h@, n@),
{
    let hlen = h.unicode_len();
    let nlen = n.unicode_len();
    if nlen == 0 {
        proof {
            lemma_contains_empty(h@, n@);
        }
        return true;
    }
    if nlen > hlen {
        proof {
            assert forall|i: int| !contains_at(h@, n@, i) by {}
        }
        return false;
    }
    let mut start: usize = 0;
    while start <= hlen - nlen
        invariant
            hlen == h@.len(),
            nlen == n@.len(),
            1 <= nlen <= hlen,
            0 <= start <= hlen - nlen + 1,
            forall|i: int| 0 <= i < start ==> !contains_at(h@, n@, i),
        decreases hlen - start,
    {
        let mut j: usize = 0;
        let mut matches = true;
        while j < nlen
            invariant
                hlen == h@.len(),
                nlen == n@.len(),
                start + nlen <= hlen,
                0 <= j <= nlen,
                matches ==> forall|k: int| 0 <= k < j ==> h@[start + k] == n@[k],
                !matches ==> !contains_at(h@, n@, start as int),
            decreases nlen - j,
        {
            let hc = h.get_char(start + j);
            let nc = n.get_char(j);
            if hc != nc {
                proof {
                    assert(h@.subrange(start as int, start + n@.len())[j as int] == h@[start + j]);
                }
                matches = false;
                j = nlen;
            } else {
                j = j + 1;
            }
        }
        if matches {
            proof {
                assert(h@.subrange(start as int, start + n@.len()) =~= n@);
                assert(contains_at(h@, n@, start as int));
            }
            return true;
        }
        start = start + 1;
    }
    proof {
        assert forall|i: int| !contains_at(h@, n@, i) by {}
    }
    false
}

/// An empty needle occurs in every haystack, at position zero.
pub proof fn lemma_contains_empty(h: Seq<char>, n: Seq<char>)
    requires
        n.len() == 0,
    ensures
        contains_seq(h, n),
{
    assert(h.subrange(0, 0) =~= n);
    assert(contains_at(h, n, 0));
}

/// The sequence of characters `str::to_lowercase` yields: a function of the
/// input characters alone.
pub uninterp spec fn lower_of(s: Seq<char>) -> Seq<char>;

/// Relies on `str::to_lowercase`: its result depends on the characters alone,
/// and an empty string stays empty.
#[verifier::external_body]
pub fn lowercase(s: &str) -> (r: String)
    ensures
        r@ == lower_of(s@),
        s@.len() == 0 ==> r@.len() == 0,
{
    s.to_lowercase()
}

/// The character `Display` writes for a single decimal digit.
pub open spec fn digit_char(d: nat) -> char {
    if d == 0 {
        '0'
    } else if d == 1 {
        '1'
    } else if d == 2 {
        '2'
    } else if d == 3 {
        '3'
    } else if d == 4 {
        '4'
    } else if d == 5 {
        '5'
    } else if d == 6 {
        '6'
    } else if d == 7 {
        '7'
    } else if d == 8 {
        '8'
    } else {
        '9'
    }
}

/// The decimal digits of `n`, most significant first: what `u64`'s `Display`
/// writes, with no sign and no leading zeros.
pub open spec fn dec_chars(n: nat) -> Seq<char>
    decreases n,
{
    if n < 10 {
        seq![digit_char(n)]
    } else {
        dec_chars(n / 10).push(digit_char(n % 10))
    }
}

/// Relies on `u64`'s `Display` implementation: it writes the decimal digits
/// of `n`, most significant first, without a sign or leading zeros.
#[verifier::external_body]
pub fn u64_to_decimal(n: u64) -> (r: String)
    ensures
        r@ == dec_chars(n as nat),
{
    format!("{}", n)
}

/// What `disqualified::ShortName` displays for a full type path: the path
/// with every module prefix removed, generic arguments shortened the same
/// way. A function of the path's characters alone.
pub uninterp spec fn short_name_of(path: Seq<char>) -> Seq<char>;

/// Relies on `disqualified::ShortName`'s `Display`: it lazily strips module
/// paths from a fully qualified type name, and its output depends on the
/// name's characters alone.
#[verifier::external_body]
pub fn short_display_name(path: &str) -> (r: String)
    ensures
        r@ == short_name_of(path@),
{
    format!("{}", disqualified::ShortName(path))
}

} // verus!
