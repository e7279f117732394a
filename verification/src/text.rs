//! Character-level operations on strings.

use vstd::prelude::*;

verus! {

/// Index of the first `c` in `p`, or -1 when there is none.
pub open spec fn char_index(p: Seq<char>, c: char) -> int
    decreases p.len(),
{
    if p.len() == 0 {
        -1
    } else if p[0] == c {
        0
    } else {
        let r = char_index(p.drop_first(), c);
        if r < 0 {
            -1
        } else {
            r + 1
        }
    }
}

pub proof fn lemma_char_index(p: Seq<char>, c: char)
    ensures
        -1 <= char_index(p, c) < p.len(),
        char_index(p, c) >= 0 ==> p[char_index(p, c)] == c,
        forall|j: int|
            0 <= j < p.len() && (char_index(p, c) < 0 || j < char_index(p, c)) ==> p[j] != c,
    decreases p.len(),
{
    if p.len() > 0 {
        lemma_char_index(p.drop_first(), c);
        assert forall|j: int|
            0 <= j < p.len() && (char_index(p, c) < 0 || j < char_index(p, c)) implies p[j]
                != c by {
            if j > 0 {
                assert(p[j] == p.drop_first()[j - 1]);
            }
        }
    }
}

/// The position of the first `c` in `s`.
pub fn find_char(s: &str, c: char) -> (r: Option<usize>)
    ensures
        match r {
            Some(i) => i == char_index(s@, c) && i < s@.len(),
            None => char_index(s@, c) == -1,
        },
{
    let n = s.unicode_len();
    let mut i: usize = 0;
    while i < n
        invariant
            n == s@.len(),
            0 <= i <= n,
            forall|j: int| 0 <= j < i ==> s@[j] != c,
        decreases n - i,
    {
        if s.get_char(i) == c {
            proof {
                lemma_char_index(s@, c);
                let ci = char_index(s@, c);
                if ci >= 0 && ci < i {
                    assert(s@[ci] == c);
                }
            }
            return Some(i);
        }
        i = i + 1;
    }
    proof {
        lemma_char_index(s@, c);
        let ci = char_index(s@, c);
        if ci >= 0 {
            assert(s@[ci] == c);
        }
    }
    None
}

/// Whether `s` begins with `p`.
pub open spec fn has_prefix(s: Seq<char>, p: Seq<char>) -> bool {
    p.len() <= s.len() && s.take(p.len() as int) == p
}

/// Whether `s` begins with `p`.
pub fn starts_with(s: &str, p: &str) -> (r: bool)
    ensures
        r == has_prefix(s@, p@),
{
    let n = s.unicode_len();
    let m = p.unicode_len();
    if m > n {
        return false;
    }
    let mut i: usize = 0;
    while i < m
        invariant
            n == s@.len(),
            m == p@.len(),
            m <= n,
            0 <= i <= m,
            forall|j: int| 0 <= j < i ==> s@[j] == p@[j],
        decreases m - i,
    {
        if s.get_char(i) != p.get_char(i) {
            assert(s@.take(m as int)[i as int] != p@[i as int]);
            return false;
        }
        i = i + 1;
    }
    assert(s@.take(m as int) =~= p@);
    true
}

/// `s` with every `"__"` replaced by `"."`, matches taken left to right
/// without overlap (as `str::replace` does).
pub open spec fn replace_double_underscore(s: Seq<char>) -> Seq<char>
    decreases s.len(),
{
    if s.len() >= 2 && s[0] == '_' && s[1] == '_' {
        seq!['.'] + replace_double_underscore(s.skip(2))
    } else if s.len() == 0 {
        s
    } else {
        seq![s[0]] + replace_double_underscore(s.skip(1))
    }
}

/// Replaces every `"__"` in `s` by `"."`.
pub fn replace_double_underscore_exec(s: &str) -> (r: String)
    ensures
        r@ == replace_double_underscore(s@),
{
    let n = s.unicode_len();
    let mut out = String::new();
    let mut start: usize = 0;
    let mut i: usize = 0;
    let dot = ".";
    proof {
        reveal_strlit(".");
        assert(s@.skip(0) =~= s@);
        assert(s@.subrange(0, 0) =~= Seq::<char>::empty());
        assert(out@ + s@.subrange(0, 0) =~= Seq::<char>::empty());
    }
    while i < n
        invariant
            n == s@.len(),
            dot@ == seq!['.'],
            0 <= start <= i <= n,
            out@ + s@.subrange(start as int, i as int) + replace_double_underscore(s@.skip(i as int))
                == replace_double_underscore(s@),
        decreases n - i,
    {
        let ghost t = s@.skip(i as int);
        if i + 1 < n && s.get_char(i) == '_' && s.get_char(i + 1) == '_' {
            let piece = s.substring_char(start, i);
            let ghost before = out@;
            out.append(piece);
            out.append(dot);
            proof {
                assert(t[0] == '_' && t[1] == '_');
                assert(t.skip(2) =~= s@.skip(i + 2));
                assert(s@.subrange((i + 2) as int, (i + 2) as int) =~= Seq::<char>::empty());
                assert(out@ + s@.subrange((i + 2) as int, (i + 2) as int) =~= before
                    + s@.subrange(start as int, i as int) + seq!['.']);
            }
            i = i + 2;
            start = i;
        } else {
            proof {
                assert(!(t.len() >= 2 && t[0] == '_' && t[1] == '_'));
                assert(t.skip(1) =~= s@.skip(i + 1));
                assert(s@.subrange(start as int, i + 1) =~= s@.subrange(start as int, i as int)
                    + seq![t[0]]);
            }
            i = i + 1;
        }
    }
    let piece = s.substring_char(start, n);
    out.append(piece);
    proof {
        assert(s@.skip(n as int) =~= Seq::<char>::empty());
    }
    out
}

/// What `str::to_lowercase` gives for `s`: the Unicode lowercase mapping.
pub uninterp spec fn lowercase(s: Seq<char>) -> Seq<char>;

/// Calls `str::to_lowercase`, which maps `s` to its Unicode lowercase form.
/// Claimed: the result depends on `s` alone (named `lowercase`); nothing more
/// is stated of the Unicode mapping.
#[verifier::external_body]
pub(crate) fn to_lowercase(s: &str) -> (r: String)
    ensures
        r@ == lowercase(s@),
{
    s.to_lowercase()
}

/// Whether `s` ends with `'_'`.
pub open spec fn ends_with_underscore(s: Seq<char>) -> bool {
    s.len() > 0 && s.last() == '_'
}

/// Replacing in a text that starts with a character other than `'_'` keeps
/// that character first.
proof fn lemma_replace_first(t: Seq<char>)
    requires
        t.len() > 0,
        t[0] != '_',
    ensures
        replace_double_underscore(t).len() > 0,
        replace_double_underscore(t)[0] == t[0],
{
}

/// Replacing in two parts, the first not ending with `'_'`, is replacing in
/// each part: no `"__"` is split between them.
pub proof fn law_replace_concat(a: Seq<char>, c: Seq<char>)
    requires
        !ends_with_underscore(a),
    ensures
        replace_double_underscore(a + c) == replace_double_underscore(a)
            + replace_double_underscore(c),
    decreases a.len(),
{
    let s = a + c;
    if a.len() == 0 {
        assert(s =~= c);
        assert(replace_double_underscore(a) =~= Seq::<char>::empty());
        assert(Seq::<char>::empty() + replace_double_underscore(c) =~= replace_double_underscore(c));
    } else if a.len() >= 2 && a[0] == '_' && a[1] == '_' {
        assert(s[0] == '_' && s[1] == '_');
        assert(s.skip(2) =~= a.skip(2) + c);
        assert(a.skip(2).len() > 0 ==> a.skip(2).last() == a.last());
        law_replace_concat(a.skip(2), c);
        assert(seq!['.'] + (replace_double_underscore(a.skip(2)) + replace_double_underscore(c))
            =~= (seq!['.'] + replace_double_underscore(a.skip(2))) + replace_double_underscore(c));
    } else {
        assert(s[0] == a[0]);
        assert(a.len() == 1 ==> a[0] != '_');
        assert(a.len() >= 2 ==> s[1] == a[1]);
        assert(!(s.len() >= 2 && s[0] == '_' && s[1] == '_'));
        assert(s.skip(1) =~= a.skip(1) + c);
        assert(a.skip(1).len() > 0 ==> a.skip(1).last() == a.last());
        law_replace_concat(a.skip(1), c);
        assert(seq![a[0]] + (replace_double_underscore(a.skip(1)) + replace_double_underscore(c))
            =~= (seq![a[0]] + replace_double_underscore(a.skip(1))) + replace_double_underscore(c));
    }
}

/// Each `"__"` after a part that does not end with `'_'` becomes one `'.'`,
/// and replacing goes on after it.
pub proof fn law_replace_each_pair(a: Seq<char>, b: Seq<char>)
    requires
        !ends_with_underscore(a),
    ensures
        replace_double_underscore(a + seq!['_', '_'] + b) == replace_double_underscore(a)
            + seq!['.'] + replace_double_underscore(b),
{
    let u = seq!['_', '_'] + b;
    assert(a + seq!['_', '_'] + b =~= a + u);
    law_replace_concat(a, u);
    assert(u.skip(2) =~= b);
    assert(replace_double_underscore(u) == seq!['.'] + replace_double_underscore(b));
    assert(replace_double_underscore(a) + (seq!['.'] + replace_double_underscore(b))
        =~= replace_double_underscore(a) + seq!['.'] + replace_double_underscore(b));
}

/// No two `'_'` follow each other once every `"__"` is replaced.
pub proof fn law_replace_leaves_no_pair(s: Seq<char>)
    ensures
        forall|i: int|
            0 <= i < replace_double_underscore(s).len() - 1 ==> !(
            #[trigger] replace_double_underscore(s)[i] == '_' && replace_double_underscore(s)[i
                + 1] == '_'),
    decreases s.len(),
{
    let r = replace_double_underscore(s);
    if s.len() >= 2 && s[0] == '_' && s[1] == '_' {
        law_replace_leaves_no_pair(s.skip(2));
        let t = replace_double_underscore(s.skip(2));
        assert forall|i: int| 0 <= i < r.len() - 1 implies !(#[trigger] r[i] == '_' && r[i + 1]
            == '_') by {
            if i > 0 {
                assert(r[i] == t[i - 1] && r[i + 1] == t[i]);
            }
        }
    } else if s.len() > 0 {
        law_replace_leaves_no_pair(s.skip(1));
        let t = replace_double_underscore(s.skip(1));
        if s[0] == '_' && s.len() >= 2 {
            lemma_replace_first(s.skip(1));
        }
        assert forall|i: int| 0 <= i < r.len() - 1 implies !(#[trigger] r[i] == '_' && r[i + 1]
            == '_') by {
            if i > 0 {
                assert(r[i] == t[i - 1] && r[i + 1] == t[i]);
            } else {
                assert(r[0] == s[0]);
                if s[0] == '_' {
                    assert(r[1] == t[0]);
                }
            }
        }
    }
}

} // verus!
