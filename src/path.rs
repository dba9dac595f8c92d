use vstd::prelude::*;

use crate::text::{chars_of, string_of_chars};

verus! {

/// `s` holds no two `c` side by side.
pub open spec fn no_pair(s: Seq<char>, c: char) -> bool {
    forall|i: int| 0 <= i < s.len() - 1 ==> !(#[trigger] s[i] == c && s[i + 1] == c)
}

/// `s` with every `..` taken out, scanning from the left without overlap.
pub open spec fn strip_parents(s: Seq<char>) -> Seq<char>
    decreases s.len(),
{
    if s.len() < 2 {
        s
    } else if s[0] == '.' && s[1] == '.' {
        strip_parents(s.subrange(2, s.len() as int))
    } else {
        seq![s[0]] + strip_parents(s.subrange(1, s.len() as int))
    }
}

/// `s` with every run of `/` made a single `/`.
pub open spec fn collapse_separators(s: Seq<char>) -> Seq<char>
    decreases s.len(),
{
    if s.len() < 2 {
        s
    } else if s[0] == '/' && s[1] == '/' {
        collapse_separators(s.subrange(1, s.len() as int))
    } else {
        seq![s[0]] + collapse_separators(s.subrange(1, s.len() as int))
    }
}

/// What is left of an untrusted key once traversal sequences are taken out.
pub open spec fn sanitized(key: Seq<char>) -> Seq<char> {
    collapse_separators(strip_parents(key))
}

/// The file path for `key` under `root` and `subfolder`.
pub open spec fn resolved(root: Seq<char>, subfolder: Seq<char>, key: Seq<char>) -> Seq<char> {
    root + seq!['/'] + subfolder + sanitized(key)
}

/// Takes every `..` out of `key`, from the left and without overlap.
pub fn strip_parent_tokens(key: &Vec<char>) -> (r: Vec<char>)
    ensures
        r@ == strip_parents(key@),
{
    let s = key;
    let n = s.len();
    let mut out: Vec<char> = Vec::new();
    let mut i: usize = 0;
    proof {
        assert(s@.subrange(0, n as int) =~= s@);
        assert(out@ + strip_parents(s@) =~= strip_parents(s@));
    }
    while i < n
        invariant
            n == s@.len(),
            i <= n,
            strip_parents(s@) == out@ + strip_parents(s@.subrange(i as int, n as int)),
        decreases n - i,
    {
        let ghost t = s@.subrange(i as int, n as int);
        if i + 1 < n && s[i] == '.' && s[i + 1] == '.' {
            proof {
                assert(t.subrange(2, t.len() as int) =~= s@.subrange(i + 2, n as int));
            }
            i = i + 2;
        } else {
            proof {
                assert(t.subrange(1, t.len() as int) =~= s@.subrange(i + 1, n as int));
                if t.len() < 2 {
                    assert(s@.subrange(i + 1, n as int) =~= Seq::<char>::empty());
                    assert(t =~= seq![s@[i as int]]);
                }
            }
            out.push(s[i]);
            i = i + 1;
            proof {
                assert(out@ + strip_parents(s@.subrange(i as int, n as int)) =~= out@.drop_last() + (
                seq![s@[i - 1]] + strip_parents(s@.subrange(i as int, n as int))));
            }
        }
    }
    proof {
        assert(s@.subrange(n as int, n as int) =~= Seq::<char>::empty());
        assert(out@ + Seq::<char>::empty() =~= out@);
    }
    out
}

/// Makes every run of `/` in `key` a single `/`.
pub fn collapse_separator_runs(key: &Vec<char>) -> (r: Vec<char>)
    ensures
        r@ == collapse_separators(key@),
{
    let s = key;
    let n = s.len();
    let mut out: Vec<char> = Vec::new();
    let mut i: usize = 0;
    proof {
        assert(s@.subrange(0, n as int) =~= s@);
        assert(out@ + collapse_separators(s@) =~= collapse_separators(s@));
    }
    while i < n
        invariant
            n == s@.len(),
            i <= n,
            collapse_separators(s@) == out@ + collapse_separators(s@.subrange(i as int, n as int)),
        decreases n - i,
    {
        let ghost t = s@.subrange(i as int, n as int);
        proof {
            assert(t.subrange(1, t.len() as int) =~= s@.subrange(i + 1, n as int));
        }
        if i + 1 < n && s[i] == '/' && s[i + 1] == '/' {
            i = i + 1;
        } else {
            proof {
                if t.len() < 2 {
                    assert(s@.subrange(i + 1, n as int) =~= Seq::<char>::empty());
                    assert(t =~= seq![s@[i as int]]);
                }
            }
            out.push(s[i]);
            i = i + 1;
            proof {
                assert(out@ + collapse_separators(s@.subrange(i as int, n as int)) =~= out@.drop_last()
                    + (seq![s@[i - 1]] + collapse_separators(s@.subrange(i as int, n as int))));
            }
        }
    }
    proof {
        assert(s@.subrange(n as int, n as int) =~= Seq::<char>::empty());
        assert(out@ + Seq::<char>::empty() =~= out@);
    }
    out
}

/// The file path for an untrusted `key`: `root`, a `/`, `subfolder`, then
/// the key with every `..` taken out and every run of `/` made one.
pub fn resolve_path(root: &str, subfolder: &str, key: &str) -> (r: String)
    ensures
        r@ == resolved(root@, subfolder@, key@),
{
    let stripped = strip_parent_tokens(&chars_of(key));
    let clean = collapse_separator_runs(&stripped);
    let tail = string_of_chars(&clean);
    let r = String::from_str(root).concat("/").concat(subfolder).concat(tail.as_str());
    proof {
        reveal_strlit("/");
        assert(r@ =~= resolved(root@, subfolder@, key@));
    }
    r
}

proof fn lemma_strip_first(t: Seq<char>)
    requires
        t.len() > 0,
        t[0] != '.',
    ensures
        strip_parents(t).len() > 0,
        strip_parents(t)[0] == t[0],
{
}

proof fn lemma_strip_no_parent(s: Seq<char>)
    ensures
        no_pair(strip_parents(s), '.'),
    decreases s.len(),
{
    if s.len() >= 2 {
        if s[0] == '.' && s[1] == '.' {
            lemma_strip_no_parent(s.subrange(2, s.len() as int));
        } else {
            let t = s.subrange(1, s.len() as int);
            lemma_strip_no_parent(t);
            let r = strip_parents(s);
            let q = strip_parents(t);
            assert(r == seq![s[0]] + q);
            if s[0] == '.' {
                lemma_strip_first(t);
            }
            assert forall|i: int| 0 <= i < r.len() - 1 implies !(#[trigger] r[i] == '.' && r[i
                + 1] == '.') by {
                if i > 0 {
                    assert(r[i] == q[i - 1]);
                    assert(r[i + 1] == q[i]);
                }
            }
        }
    }
}

proof fn lemma_collapse_first(t: Seq<char>)
    requires
        t.len() > 0,
    ensures
        collapse_separators(t).len() > 0,
        collapse_separators(t)[0] == t[0],
    decreases t.len(),
{
    if t.len() >= 2 && t[0] == '/' && t[1] == '/' {
        lemma_collapse_first(t.subrange(1, t.len() as int));
    }
}

proof fn lemma_collapse(s: Seq<char>)
    ensures
        no_pair(collapse_separators(s), '/'),
        no_pair(s, '.') ==> no_pair(collapse_separators(s), '.'),
    decreases s.len(),
{
    if s.len() >= 2 {
        let t = s.subrange(1, s.len() as int);
        lemma_collapse(t);
        if no_pair(s, '.') {
            assert forall|i: int| 0 <= i < t.len() - 1 implies !(#[trigger] t[i] == '.' && t[i
                + 1] == '.') by {
                assert(t[i] == s[i + 1] && t[i + 1] == s[i + 2]);
            }
        }
        if !(s[0] == '/' && s[1] == '/') {
            let r = collapse_separators(s);
            let q = collapse_separators(t);
            assert(r == seq![s[0]] + q);
            lemma_collapse_first(t);
            assert(r[1] == s[1]);
            assert forall|i: int| 0 <= i < r.len() - 1 implies !(#[trigger] r[i] == '/' && r[i
                + 1] == '/') by {
                if i > 0 {
                    assert(r[i] == q[i - 1]);
                    assert(r[i + 1] == q[i]);
                }
            }
            if no_pair(s, '.') {
                assert(!(s[0] == '.' && s[1] == '.'));
                assert forall|i: int| 0 <= i < r.len() - 1 implies !(#[trigger] r[i] == '.'
                    && r[i + 1] == '.') by {
                    if i > 0 {
                        assert(r[i] == q[i - 1]);
                        assert(r[i + 1] == q[i]);
                    }
                }
            }
        }
    }
}

/// A resolved path stays under the configured root: it begins with the
/// root, a `/` and the subfolder, and what the key adds holds no `..` (so no
/// parent-directory step) and no `//`.
pub proof fn law_path_confined(root: Seq<char>, subfolder: Seq<char>, key: Seq<char>)
    ensures
        ({
            let p = root + seq!['/'] + subfolder;
            let r = resolved(root, subfolder, key);
            &&& r.subrange(0, p.len() as int) == p
            &&& r.subrange(p.len() as int, r.len() as int) == sanitized(key)
            &&& no_pair(sanitized(key), '.')
            &&& no_pair(sanitized(key), '/')
        }),
{
    let p = root + seq!['/'] + subfolder;
    let r = resolved(root, subfolder, key);
    assert(r.subrange(0, p.len() as int) =~= p);
    assert(r.subrange(p.len() as int, r.len() as int) =~= sanitized(key));
    lemma_strip_no_parent(key);
    lemma_collapse(strip_parents(key));
}

} // verus!
