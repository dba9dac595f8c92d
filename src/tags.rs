use vstd::prelude::*;

use crate::text::{chars_of, string_of_chars};

verus! {

/// The parts of `s` between commas, as `str::split(',')` gives them: one
/// more part than there are commas, empty parts kept.
pub open spec fn split_commas(s: Seq<char>) -> Seq<Seq<char>>
    decreases s.len(),
{
    if s.len() == 0 {
        seq![Seq::<char>::empty()]
    } else {
        let r = split_commas(s.drop_last());
        if s.last() == ',' {
            r.push(Seq::<char>::empty())
        } else {
            r.update(r.len() - 1, r.last().push(s.last()))
        }
    }
}

pub open spec fn starts_with(t: Seq<char>, p: Seq<char>) -> bool {
    p.len() <= t.len() && t.subrange(0, p.len() as int) == p
}

/// Tags that the catalogue software writes for its own bookkeeping, which
/// the gallery does not show.
pub open spec fn is_hidden(t: Seq<char>) -> bool {
    ||| starts_with(t, "Pick Label"@)
    ||| starts_with(t, "Scanned for"@)
    ||| starts_with(t, "Color Label"@)
    ||| starts_with(t, "Intermediate"@)
    ||| starts_with(t, "Current Version"@)
}

/// The tags that are not hidden, in their order.
pub open spec fn visible(ts: Seq<Seq<char>>) -> Seq<Seq<char>>
    decreases ts.len(),
{
    if ts.len() == 0 {
        ts
    } else if is_hidden(ts.last()) {
        visible(ts.drop_last())
    } else {
        visible(ts.drop_last()).push(ts.last())
    }
}

pub open spec fn strings_view(v: Seq<String>) -> Seq<Seq<char>> {
    v.map_values(|s: String| s@)
}

/// An image of the gallery: its file name and the tags shown with it.
pub struct Image {
    pub name: String,
    pub tags: Vec<String>,
}

/// Whether `t` begins with `p`.
fn has_prefix(t: &Vec<char>, p: &str) -> (r: bool)
    ensures
        r == starts_with(t@, p@),
{
    let n = p.unicode_len();
    if n > t.len() {
        return false;
    }
    let mut i: usize = 0;
    while i < n
        invariant
            n == p@.len(),
            n <= t@.len(),
            i <= n,
            t@.subrange(0, i as int) == p@.subrange(0, i as int),
        decreases n - i,
    {
        if t[i] != p.get_char(i) {
            proof {
                assert(t@.subrange(0, n as int)[i as int] != p@[i as int]);
            }
            return false;
        }
        i = i + 1;
        proof {
            assert(t@.subrange(0, i as int) =~= p@.subrange(0, i as int));
        }
    }
    proof {
        assert(p@.subrange(0, n as int) =~= p@);
    }
    true
}

fn hidden(t: &Vec<char>) -> (r: bool)
    ensures
        r == is_hidden(t@),
{
    has_prefix(t, "Pick Label") || has_prefix(t, "Scanned for") || has_prefix(t, "Color Label")
        || has_prefix(t, "Intermediate") || has_prefix(t, "Current Version")
}

/// The parts of `s` between commas.
fn split_on_commas(s: &Vec<char>) -> (r: Vec<Vec<char>>)
    ensures
        r@.map_values(|v: Vec<char>| v@) == split_commas(s@),
{
    let n = s.len();
    let mut parts: Vec<Vec<char>> = Vec::new();
    let mut cur: Vec<char> = Vec::new();
    let mut i: usize = 0;
    proof {
        assert(s@.subrange(0, 0) =~= Seq::<char>::empty());
        assert(parts@.map_values(|v: Vec<char>| v@).push(cur@) =~= seq![Seq::<char>::empty()]);
    }
    while i < n
        invariant
            n == s@.len(),
            i <= n,
            parts@.map_values(|v: Vec<char>| v@).push(cur@) == split_commas(
                s@.subrange(0, i as int),
            ),
        decreases n - i,
    {
        let ghost pm = parts@.map_values(|v: Vec<char>| v@);
        proof {
            let t = s@.subrange(0, i as int + 1);
            assert(t.drop_last() =~= s@.subrange(0, i as int));
            assert(t.last() == s@[i as int]);
        }
        if s[i] == ',' {
            let done = cur;
            cur = Vec::new();
            parts.push(done);
            proof {
                assert(parts@.map_values(|v: Vec<char>| v@) =~= pm.push(done@));
                assert(parts@.map_values(|v: Vec<char>| v@).push(cur@) =~= pm.push(done@).push(
                    Seq::<char>::empty(),
                ));
            }
        } else {
            let ghost before = cur@;
            cur.push(s[i]);
            proof {
                assert(parts@.map_values(|v: Vec<char>| v@).push(cur@) =~= pm.push(before).update(
                    pm.len() as int,
                    before.push(s@[i as int]),
                ));
            }
        }
        i = i + 1;
    }
    let ghost pm = parts@.map_values(|v: Vec<char>| v@);
    parts.push(cur);
    proof {
        assert(s@.subrange(0, n as int) =~= s@);
        assert(parts@.map_values(|v: Vec<char>| v@) =~= pm.push(cur@));
    }
    parts
}

/// The tags listed in `tags`, separated by commas, without those that are
/// hidden, in their order.
pub fn visible_tags(tags: &str) -> (r: Vec<String>)
    ensures
        strings_view(r@) == visible(split_commas(tags@)),
{
    let parts = split_on_commas(&chars_of(tags));
    let ghost ps = parts@.map_values(|v: Vec<char>| v@);
    let n = parts.len();
    let mut out: Vec<String> = Vec::new();
    let mut j: usize = 0;
    proof {
        assert(ps.subrange(0, 0) =~= Seq::<Seq<char>>::empty());
        assert(strings_view(out@) =~= Seq::<Seq<char>>::empty());
    }
    while j < n
        invariant
            n == parts@.len(),
            ps == parts@.map_values(|v: Vec<char>| v@),
            j <= n,
            strings_view(out@) == visible(ps.subrange(0, j as int)),
        decreases n - j,
    {
        proof {
            let t = ps.subrange(0, j as int + 1);
            assert(t.drop_last() =~= ps.subrange(0, j as int));
            assert(t.last() == parts@[j as int]@);
        }
        if !hidden(&parts[j]) {
            let ghost before = strings_view(out@);
            out.push(string_of_chars(&parts[j]));
            proof {
                assert(strings_view(out@) =~= before.push(parts@[j as int]@));
            }
        }
        j = j + 1;
    }
    proof {
        assert(ps.subrange(0, n as int) =~= ps);
    }
    out
}

impl Image {
    /// An image named `name`, shown with the visible tags of the
    /// comma-separated list `tags`.
    pub fn from_row(name: String, tags: &str) -> (r: Image)
        ensures
            r.name@ == name@,
            strings_view(r.tags@) == visible(split_commas(tags@)),
    {
        Image { name, tags: visible_tags(tags) }
    }
}

/// The tag pattern a listing is asked for; `%`, which matches every tag,
/// where none is given.
pub fn tag_pattern(filter: Option<String>) -> (r: String)
    ensures
        r@ == match filter {
            Some(f) => f@,
            None => "%"@,
        },
{
    match filter {
        Some(f) => f,
        None => String::from_str("%"),
    }
}

} // verus!
