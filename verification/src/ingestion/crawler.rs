//! Crawl filtering: which files of a directory walk are indexed. The walk
//! itself is I/O and happens outside; this module decides, for a walked
//! listing, which paths are kept — supported extension, no ignored directory
//! component — and puts them in sorted order for deterministic ingestion.

use crate::ingestion::chunker::ext_spec;
use crate::text::{chars_of, eq_chars, slice_range};
use vstd::prelude::*;

verus! {

/// Extensions the engine indexes.
pub open spec fn supported_ext(e: Seq<char>) -> bool {
    e == "rs"@ || e == "tsx"@ || e == "ts"@ || e == "jsx"@ || e == "js"@ || e == "md"@ || e
        == "toml"@ || e == "json"@ || e == "css"@
}

pub open spec fn is_supported_spec(path: Seq<char>) -> bool {
    supported_ext(ext_spec(path))
}

/// Directory names whose subtrees are skipped.
pub open spec fn ignored_dir(d: Seq<char>) -> bool {
    d == "target"@ || d == "node_modules"@ || d == ".git"@ || d == ".venv"@ || d == ".mypy_cache"@
        || d == ".pytest_cache"@ || d == ".ruff_cache"@ || d == "dist"@ || d == ".next"@ || d
        == ".vite"@
}

/// The slash-separated pieces of a path.
pub open spec fn path_components(p: Seq<char>) -> Seq<Seq<char>>
    decreases p.len(),
    via path_components_decreases
{
    if p.len() == 0 {
        seq![p]
    } else {
        let k = crate::text::first_char_index(p, '/');
        if k == -1 {
            seq![p]
        } else {
            seq![p.subrange(0, k)] + path_components(p.subrange(k + 1, p.len() as int))
        }
    }
}

#[via_fn]
proof fn path_components_decreases(p: Seq<char>) {
    crate::text::lemma_first_char_index(p, '/');
}

/// Whether some directory component of the path is in the ignore set. The
/// final component is the file itself and is not checked.
pub open spec fn path_ignored(p: Seq<char>) -> bool {
    exists|i: int|
        0 <= i < path_components(p).len() - 1 && ignored_dir(#[trigger] path_components(p)[i])
}

pub open spec fn crawl_keep(p: Seq<char>) -> bool {
    is_supported_spec(p) && !path_ignored(p)
}

/// Whether a path has one of the supported extensions.
pub fn is_supported_file(path: &str) -> (r: bool)
    ensures
        r == is_supported_spec(path@),
{
    let v = chars_of(path);
    let e = crate::ingestion::chunker::path_ext(&v);
    eq_chars(&e, &chars_of("rs")) || eq_chars(&e, &chars_of("tsx")) || eq_chars(
        &e,
        &chars_of("ts"),
    ) || eq_chars(&e, &chars_of("jsx")) || eq_chars(&e, &chars_of("js")) || eq_chars(
        &e,
        &chars_of("md"),
    ) || eq_chars(&e, &chars_of("toml")) || eq_chars(&e, &chars_of("json")) || eq_chars(
        &e,
        &chars_of("css"),
    )
}

fn is_ignored_name(d: &Vec<char>) -> (r: bool)
    ensures
        r == ignored_dir(d@),
{
    eq_chars(d, &chars_of("target")) || eq_chars(d, &chars_of("node_modules")) || eq_chars(
        d,
        &chars_of(".git"),
    ) || eq_chars(d, &chars_of(".venv")) || eq_chars(d, &chars_of(".mypy_cache")) || eq_chars(
        d,
        &chars_of(".pytest_cache"),
    ) || eq_chars(d, &chars_of(".ruff_cache")) || eq_chars(d, &chars_of("dist")) || eq_chars(
        d,
        &chars_of(".next"),
    ) || eq_chars(d, &chars_of(".vite"))
}

/// Splits a path on slashes.
fn split_components(p: &Vec<char>) -> (r: Vec<Vec<char>>)
    ensures
        r.deep_view() == path_components(p@),
{
    let n = p.len();
    let mut r: Vec<Vec<char>> = Vec::new();
    if n == 0 {
        let piece: Vec<char> = Vec::new();
        proof {
            assert(piece@ =~= p@);
        }
        r.push(piece);
        proof {
            assert(r.deep_view() =~~= path_components(p@));
        }
        return r;
    }
    let mut i: usize = 0;
    proof {
        assert(p@.subrange(0, n as int) =~= p@);
        assert(r.deep_view() + path_components(p@) =~~= path_components(p@));
    }
    while i < n
        invariant
            n == p@.len(),
            i <= n,
            path_components(p@) == r.deep_view() + path_components(
                p@.subrange(i as int, n as int),
            ),
        decreases n - i,
    {
        let ghost tail = p@.subrange(i as int, n as int);
        proof {
            crate::text::lemma_first_char_index(tail, '/');
        }
        match crate::text::find_char_from(p, i, '/') {
            Some(k) => {
                proof {
                    assert(crate::text::first_char_index(tail, '/') == k - i) by {
                        crate::text::lemma_first_char_index(tail, '/');
                        let f = crate::text::first_char_index(tail, '/');
                        if f == -1 {
                            assert(tail[k - i] == p@[k as int]);
                        } else {
                            if f < k - i {
                                assert(p@[i + f] == tail[f]);
                            }
                            if k - i < f {
                                assert(tail[k - i] == p@[k as int]);
                            }
                        }
                    }
                }
                let piece = slice_range(p, i, k);
                let ghost prev = r.deep_view();
                r.push(piece);
                proof {
                    assert(r.deep_view() =~~= prev + seq![piece@]);
                    assert(piece@ =~= tail.subrange(0, k - i));
                    assert(tail.subrange(k - i + 1, tail.len() as int) =~= p@.subrange(
                        k + 1,
                        n as int,
                    ));
                    assert(path_components(tail) == seq![tail.subrange(0, k - i)]
                        + path_components(p@.subrange(k + 1, n as int)));
                }
                i = k + 1;
                proof {
                    assert(path_components(p@) =~~= r.deep_view() + path_components(
                        p@.subrange(i as int, n as int),
                    ));
                }
            },
            None => {
                proof {
                    assert(crate::text::first_char_index(tail, '/') == -1) by {
                        crate::text::lemma_first_char_index(tail, '/');
                        let f = crate::text::first_char_index(tail, '/');
                        if f != -1 {
                            assert(p@[i + f] == tail[f]);
                        }
                    }
                    assert(path_components(tail) == seq![tail]);
                }
                let piece = slice_range(p, i, n);
                let ghost prev = r.deep_view();
                r.push(piece);
                proof {
                    assert(r.deep_view() =~~= prev + seq![piece@]);
                    assert(path_components(p@) =~~= r.deep_view());
                }
                return r;
            },
        }
    }
    // Reached only when the path ends with a slash: the final empty
    // component is what remains.
    let piece: Vec<char> = Vec::new();
    let ghost prev = r.deep_view();
    r.push(piece);
    proof {
        assert(p@.subrange(n as int, n as int).len() == 0);
        assert(path_components(p@.subrange(n as int, n as int)) == seq![
            p@.subrange(n as int, n as int),
        ]);
        assert(piece@ =~= p@.subrange(n as int, n as int));
        assert(r.deep_view() =~~= prev + seq![piece@]);
        assert(r.deep_view() =~~= path_components(p@));
    }
    r
}

/// Whether a directory component of the path is ignored.
pub fn path_is_ignored(path: &str) -> (r: bool)
    ensures
        r == path_ignored(path@),
{
    let v = chars_of(path);
    let comps = split_components(&v);
    let mut i: usize = 0;
    if comps.len() == 0 {
        proof {
            assert(comps.deep_view().len() == 0);
        }
        return false;
    }
    let last = comps.len() - 1;
    while i < last
        invariant
            comps.deep_view() == path_components(path@),
            comps@.len() == comps.deep_view().len(),
            last == comps@.len() - 1,
            i <= last,
            forall|j: int| 0 <= j < i ==> !ignored_dir(#[trigger] path_components(path@)[j]),
        decreases last - i,
    {
        proof {
            assert(path_components(path@)[i as int] =~= comps@[i as int]@);
        }
        if is_ignored_name(&comps[i]) {
            proof {
                assert(ignored_dir(path_components(path@)[i as int]));
            }
            return true;
        }
        i = i + 1;
    }
    false
}

// ---------------------------------------------------------------------------
// Lexicographic order and sorting
// ---------------------------------------------------------------------------

/// Strict lexicographic order on character sequences, by code point.
pub open spec fn lt_chars(a: Seq<char>, b: Seq<char>) -> bool
    decreases a.len(),
{
    if b.len() == 0 {
        false
    } else if a.len() == 0 {
        true
    } else if (a[0] as u32) < (b[0] as u32) {
        true
    } else if (a[0] as u32) > (b[0] as u32) {
        false
    } else {
        lt_chars(a.subrange(1, a.len() as int), b.subrange(1, b.len() as int))
    }
}

pub fn chars_lt(a: &Vec<char>, b: &Vec<char>) -> (r: bool)
    ensures
        r == lt_chars(a@, b@),
{
    let mut i: usize = 0;
    let na = a.len();
    let nb = b.len();
    proof {
        assert(a@.subrange(0, na as int) =~= a@);
        assert(b@.subrange(0, nb as int) =~= b@);
    }
    while i < na && i < nb
        invariant
            na == a@.len(),
            nb == b@.len(),
            i <= na,
            i <= nb,
            lt_chars(a@, b@) == lt_chars(
                a@.subrange(i as int, na as int),
                b@.subrange(i as int, nb as int),
            ),
        decreases na - i,
    {
        let ghost ta = a@.subrange(i as int, na as int);
        let ghost tb = b@.subrange(i as int, nb as int);
        proof {
            assert(ta[0] == a@[i as int]);
            assert(tb[0] == b@[i as int]);
            assert(ta.subrange(1, ta.len() as int) =~= a@.subrange(i + 1, na as int));
            assert(tb.subrange(1, tb.len() as int) =~= b@.subrange(i + 1, nb as int));
        }
        let ca = a[i] as u32;
        let cb = b[i] as u32;
        if ca < cb {
            return true;
        }
        if ca > cb {
            return false;
        }
        i = i + 1;
    }
    proof {
        assert(a@.subrange(i as int, na as int).len() == na - i);
        assert(b@.subrange(i as int, nb as int).len() == nb - i);
    }
    i >= na && i < nb
}

/// Stable insertion into a sorted sequence: before the first strictly
/// greater element.
pub open spec fn insert_sorted(s: Seq<String>, x: String) -> Seq<String>
    decreases s.len(),
{
    if s.len() == 0 {
        seq![x]
    } else if lt_chars(x@, s[0]@) {
        seq![x] + s
    } else {
        seq![s[0]] + insert_sorted(s.subrange(1, s.len() as int), x)
    }
}

/// Stable sort, processing elements left to right.
pub open spec fn sort_strings(s: Seq<String>) -> Seq<String>
    decreases s.len(),
{
    if s.len() == 0 {
        Seq::empty()
    } else {
        insert_sorted(sort_strings(s.drop_last()), s.last())
    }
}

fn do_insert_sorted(r: &mut Vec<String>, x: String)
    ensures
        final(r)@ == insert_sorted(old(r)@, x),
{
    let n = r.len();
    let xv = chars_of(x.as_str());
    let mut i: usize = 0;
    proof {
        assert(r@.subrange(0, 0).len() == 0);
        assert(r@.subrange(0, n as int) =~= r@);
        assert(r@.subrange(0, 0) + insert_sorted(r@, x) =~= insert_sorted(r@, x));
    }
    while i < n
        invariant
            n == r@.len(),
            r@ == old(r)@,
            xv@ == x@,
            i <= n,
            insert_sorted(r@, x) == r@.subrange(0, i as int) + insert_sorted(
                r@.subrange(i as int, n as int),
                x,
            ),
        decreases n - i,
    {
        let ghost tail = r@.subrange(i as int, n as int);
        proof {
            assert(tail[0] == r@[i as int]);
            assert(tail.subrange(1, tail.len() as int) =~= r@.subrange(i + 1, n as int));
        }
        if chars_lt(&xv, &chars_of(r[i].as_str())) {
            proof {
                assert(insert_sorted(tail, x) == seq![x] + tail);
            }
            r.insert(i, x);
            proof {
                assert(r@ =~= old(r)@.subrange(0, i as int) + (seq![x] + tail));
            }
            return ;
        }
        proof {
            assert(insert_sorted(tail, x) == seq![r@[i as int]] + insert_sorted(
                r@.subrange(i + 1, n as int),
                x,
            ));
            assert(r@.subrange(0, i as int) + (seq![r@[i as int]] + insert_sorted(
                r@.subrange(i + 1, n as int),
                x,
            )) =~~= r@.subrange(0, i + 1) + insert_sorted(r@.subrange(i + 1, n as int), x));
        }
        i = i + 1;
    }
    proof {
        assert(r@.subrange(i as int, n as int).len() == 0);
        assert(insert_sorted(r@.subrange(i as int, n as int), x) == seq![x]);
    }
    r.push(x);
    proof {
        assert(r@ =~= old(r)@.subrange(0, n as int) + seq![x]);
        assert(old(r)@.subrange(0, n as int) =~= old(r)@);
    }
}

/// Keeps the supported, non-ignored paths of a walked listing, in sorted
/// order, for deterministic ingestion.
pub fn crawl_directory(paths: &Vec<String>) -> (r: Vec<String>)
    ensures
        r@ == sort_strings(paths@.filter(|p: String| crawl_keep(p@))),
{
    let ghost pred = |p: String| crawl_keep(p@);
    let mut kept: Vec<String> = Vec::new();
    let mut i: usize = 0;
    proof {
        crate::graph_queries::lemma_filter_empty(pred);
        assert(paths@.subrange(0, 0) =~= Seq::<String>::empty());
    }
    while i < paths.len()
        invariant
            pred == (|p: String| crawl_keep(p@)),
            i <= paths@.len(),
            kept@ == paths@.subrange(0, i as int).filter(pred),
        decreases paths@.len() - i,
    {
        proof {
            crate::graph_queries::lemma_filter_step(paths@, i as int, pred);
        }
        let keep = is_supported_file(paths[i].as_str()) && !path_is_ignored(paths[i].as_str());
        if keep {
            kept.push(paths[i].clone());
        }
        i = i + 1;
    }
    proof {
        assert(paths@.subrange(0, paths@.len() as int) =~= paths@);
    }
    let ghost keptv = kept@;
    let mut r: Vec<String> = Vec::new();
    let mut j: usize = 0;
    while j < kept.len()
        invariant
            keptv == kept@,
            j <= kept@.len(),
            r@ == sort_strings(kept@.subrange(0, j as int)),
        decreases kept@.len() - j,
    {
        proof {
            assert(kept@.subrange(0, j + 1).drop_last() =~= kept@.subrange(0, j as int));
            assert(kept@.subrange(0, j + 1).last() == kept@[j as int]);
        }
        do_insert_sorted(&mut r, kept[j].clone());
        j = j + 1;
    }
    proof {
        assert(kept@.subrange(0, kept@.len() as int) =~= kept@);
    }
    r
}

} // verus!
