//! Resolution of human-typed node references, in precedence order: positional
//! number, full identifier text, identifier prefix, and finally
//! case-insensitive substring match against titles.

use vstd::prelude::*;
use vstd::seq_lib::group_seq_properties;

use crate::book::{BookView, TemplateBook};
use crate::errors::NodeId;
use crate::ids::{node_id_text, parse_node_id, uuid_syntax, uuid_text, uuid_val};
use crate::numbering::{build_hierarchical_ids, labels_match, toc_labels};
use crate::textutil::{
    chars_of, hierarchical_id_syntax, is_hierarchical_id, str_eq, str_starts_with,
};

verus! {

broadcast use group_seq_properties;

/// Failure of reference resolution.
#[derive(Debug, PartialEq, Eq)]
pub enum ResolveError {
    /// Nothing matched the reference.
    NotFound,
    /// More than one node matched; all candidates, in depth-first order.
    Ambiguous(Vec<NodeId>),
}

/// The identifier of the first entry carrying label `lab`, if any.
pub open spec fn lookup_by_label(ls: Seq<(Seq<char>, NodeId)>, lab: Seq<char>) -> Option<NodeId>
    decreases ls.len(),
{
    if ls.len() == 0 {
        None
    } else if ls[0].0 == lab {
        Some(ls[0].1)
    } else {
        lookup_by_label(ls.drop_first(), lab)
    }
}

/// `t` begins with the characters of `p`.
pub open spec fn text_starts_with(t: Seq<char>, p: Seq<char>) -> bool {
    p.len() <= t.len() && t.take(p.len() as int) == p
}

/// `n` occurs somewhere in `h` as a contiguous run.
pub open spec fn contains_seq(h: Seq<char>, n: Seq<char>) -> bool {
    exists|i: int| 0 <= i && i + n.len() <= h.len() && #[trigger] h.subrange(i, i + n.len()) == n
}

/// What lowercasing a text yields; the result depends on the characters
/// alone. Named, not spelled out: only the trusted wrapper below speaks for
/// it.
pub uninterp spec fn lower_of(s: Seq<char>) -> Seq<char>;

/// Relies on `str::to_lowercase`: the result is a function of the input
/// characters alone.
#[verifier::external_body]
fn lowercase(s: &str) -> (r: String)
    ensures
        r@ == lower_of(s@),
{
    s.to_lowercase()
}

/// The nodes whose identifier text begins with `s`, in depth-first order.
pub open spec fn prefix_candidates(v: BookView, s: Seq<char>) -> Seq<NodeId> {
    v.dfs().filter(|x: NodeId| text_starts_with(uuid_text(x), s))
}

/// The nodes whose lowercased title contains the lowercased reference, in
/// depth-first order.
pub open spec fn title_candidates(v: BookView, s: Seq<char>) -> Seq<NodeId> {
    v.dfs().filter(|x: NodeId| contains_seq(lower_of(v.nodes[x].title), lower_of(s)))
}

/// The resolution contract, in precedence order: a positional number is
/// looked up in the numbering enumeration; identifier text is used directly;
/// otherwise a unique identifier-prefix match wins, then a unique
/// case-insensitive title-substring match; zero matches fail as `NotFound`,
/// several as `Ambiguous` with all candidates.
pub open spec fn resolved(v: BookView, s: Seq<char>, r: Result<NodeId, ResolveError>) -> bool {
    if hierarchical_id_syntax(s) {
        match lookup_by_label(toc_labels(v), s) {
            Some(x) => r == Ok::<NodeId, ResolveError>(x),
            None => r == Err::<NodeId, ResolveError>(ResolveError::NotFound),
        }
    } else if uuid_syntax(s) {
        r matches Ok(x) && x as nat == uuid_val(s)
    } else {
        let pm = prefix_candidates(v, s);
        let tm = title_candidates(v, s);
        if pm.len() == 1 {
            r == Ok::<NodeId, ResolveError>(pm[0])
        } else if pm.len() > 1 {
            r matches Err(e) && e matches ResolveError::Ambiguous(c) && c@ == pm
        } else if tm.len() == 0 {
            r == Err::<NodeId, ResolveError>(ResolveError::NotFound)
        } else if tm.len() == 1 {
            r == Ok::<NodeId, ResolveError>(tm[0])
        } else {
            r matches Err(e) && e matches ResolveError::Ambiguous(c) && c@ == tm
        }
    }
}

/// Whether `n` occurs in `h` as a contiguous run of characters.
fn contains_chars(h: &Vec<char>, n: &Vec<char>) -> (r: bool)
    ensures
        r == contains_seq(h@, n@),
{
    let hn = h.len();
    let nn = n.len();
    if nn > hn {
        return false;
    }
    if nn == 0 {
        proof {
            assert(h@.subrange(0, 0 + n@.len() as int) =~= n@);
            assert(contains_seq(h@, n@));
        }
        return true;
    }
    let mut i: usize = 0;
    while i <= hn - nn
        invariant
            1 <= nn <= hn,
            hn == h@.len(),
            nn == n@.len(),
            i <= hn - nn + 1,
            forall|ii: int| 0 <= ii < i ==> #[trigger] h@.subrange(ii, ii + nn as int) != n@,
        decreases hn - nn + 1 - i,
    {
        let mut j: usize = 0;
        let mut ok = true;
        while j < nn
            invariant
                nn <= hn,
                hn == h@.len(),
                nn == n@.len(),
                i <= hn - nn,
                j <= nn,
                ok ==> forall|jj: int| 0 <= jj < j ==> h@[i + jj] == n@[jj],
                !ok ==> h@.subrange(i as int, i + nn as int) != n@,
            decreases nn - j,
        {
            if h[i + j] != n[j] {
                proof {
                    assert(h@.subrange(i as int, i + nn as int)[j as int] != n@[j as int]);
                }
                ok = false;
                j = nn;
            } else {
                j = j + 1;
            }
        }
        if ok {
            proof {
                assert(h@.subrange(i as int, i + nn as int) =~= n@);
            }
            return true;
        }
        i = i + 1;
    }
    proof {
        assert(!contains_seq(h@, n@)) by {
            if contains_seq(h@, n@) {
                let ii = choose|ii: int|
                    0 <= ii && ii + n@.len() <= h@.len() && #[trigger] h@.subrange(
                        ii,
                        ii + n@.len(),
                    ) == n@;
                assert(ii < i);
            }
        }
    }
    false
}

/// Resolve a human-typed node reference against the aggregate.
#[verifier::loop_isolation(false)]
pub fn resolve_node_ref(book: &TemplateBook, s: &str) -> (r: Result<NodeId, ResolveError>)
    requires
        book@.wf(),
    ensures
        resolved(book@, s@, r),
{
    let ghost v = book@;
    // 1. positional number
    if is_hierarchical_id(s) {
        let mapping = build_hierarchical_ids(book);
        let ghost ls = toc_labels(v);
        let n = mapping.len();
        let mut i: usize = 0;
        while i < n
            invariant
                n == mapping@.len(),
                labels_match(mapping@, ls),
                i <= n,
                lookup_by_label(ls, s@) == lookup_by_label(ls.skip(i as int), s@),
            decreases n - i,
        {
            proof {
                assert(ls.skip(i as int)[0] == ls[i as int]);
                assert(ls.skip(i as int).drop_first() =~= ls.skip(i as int + 1));
            }
            if str_eq(mapping[i].0.as_str(), s) {
                proof {
                    assert(mapping@[i as int].0@ == ls[i as int].0);
                    assert(lookup_by_label(ls.skip(i as int), s@) == Some(ls[i as int].1));
                }
                return Ok(mapping[i].1);
            }
            proof {
                assert(mapping@[i as int].0@ == ls[i as int].0);
            }
            i = i + 1;
        }
        proof {
            assert(ls.skip(n as int) =~= Seq::<(Seq<char>, NodeId)>::empty());
        }
        return Err(ResolveError::NotFound);
    }
    // 2. full identifier text
    if let Some(id) = parse_node_id(s) {
        return Ok(id);
    }
    // 3. identifier prefix
    let ids = book.all_node_ids();
    let n = ids.len();
    let mut matches: Vec<NodeId> = Vec::new();
    let mut i: usize = 0;
    proof {
        reveal(Seq::filter);
        assert(v.dfs().take(0) =~= Seq::<NodeId>::empty());
    }
    while i < n
        invariant
            n == ids@.len(),
            ids@ == v.dfs(),
            i <= n,
            matches@ == v.dfs().take(i as int).filter(
                |x: NodeId| text_starts_with(uuid_text(x), s@),
            ),
        decreases n - i,
    {
        let id = ids[i];
        let t = node_id_text(id);
        let hit = str_starts_with(t.as_str(), s);
        proof {
            lemma_filter_step(
                v.dfs(),
                i as int,
                |x: NodeId| text_starts_with(uuid_text(x), s@),
            );
        }
        if hit {
            matches.push(id);
        }
        i = i + 1;
    }
    proof {
        assert(v.dfs().take(n as int) =~= v.dfs());
    }
    if matches.len() == 1 {
        return Ok(matches[0]);
    }
    if matches.len() > 1 {
        return Err(ResolveError::Ambiguous(matches));
    }
    // 4. case-insensitive title substring
    let q = lowercase(s);
    let qv = chars_of(q.as_str());
    let mut found: Vec<NodeId> = Vec::new();
    i = 0;
    proof {
        reveal(Seq::filter);
        assert(v.dfs().take(0) =~= Seq::<NodeId>::empty());
    }
    while i < n
        invariant
            book@ == v,
            book@.wf(),
            n == ids@.len(),
            ids@ == v.dfs(),
            qv@ == lower_of(s@),
            i <= n,
            found@ == v.dfs().take(i as int).filter(
                |x: NodeId| contains_seq(lower_of(v.nodes[x].title), lower_of(s@)),
            ),
        decreases n - i,
    {
        let id = ids[i];
        proof {
            crate::tree::lemma_dfs_props(v);
            assert(ids@.contains(ids@[i as int]));
        }
        let node = book.get_node(id).unwrap();
        let lt = lowercase(node.title());
        let ltv = chars_of(lt.as_str());
        let hit = contains_chars(&ltv, &qv);
        proof {
            lemma_filter_step(
                v.dfs(),
                i as int,
                |x: NodeId| contains_seq(lower_of(v.nodes[x].title), lower_of(s@)),
            );
        }
        if hit {
            found.push(id);
        }
        i = i + 1;
    }
    proof {
        assert(v.dfs().take(n as int) =~= v.dfs());
    }
    if found.len() == 0 {
        return Err(ResolveError::NotFound);
    }
    if found.len() == 1 {
        return Ok(found[0]);
    }
    Err(ResolveError::Ambiguous(found))
}

/// One step of building a filtered prefix: extending the prefix by one
/// element extends the filtered sequence by that element when it passes.
proof fn lemma_filter_step(s: Seq<NodeId>, i: int, pred: spec_fn(NodeId) -> bool)
    requires
        0 <= i < s.len(),
    ensures
        pred(s[i]) ==> s.take(i + 1).filter(pred) == s.take(i).filter(pred).push(s[i]),
        !pred(s[i]) ==> s.take(i + 1).filter(pred) == s.take(i).filter(pred),
{
    reveal(Seq::filter);
    assert(s.take(i + 1).drop_last() =~= s.take(i));
    assert(s.take(i + 1).last() == s[i]);
}

/// Parse a user-facing node type tag: only the current vocabulary, no
/// legacy tags.
pub fn parse_node_type(s: &str) -> (r: Result<crate::node::NodeType, ()>)
    ensures
        r == (if s@ == "section"@ {
            Ok::<crate::node::NodeType, ()>(crate::node::NodeType::Section)
        } else if s@ == "content"@ {
            Ok::<crate::node::NodeType, ()>(crate::node::NodeType::Content)
        } else {
            Err::<crate::node::NodeType, ()>(())
        }),
{
    if str_eq(s, "section") {
        Ok(crate::node::NodeType::Section)
    } else if str_eq(s, "content") {
        Ok(crate::node::NodeType::Content)
    } else {
        Err(())
    }
}

/// Resolve a collection reference: a number picks from the listed slugs
/// (1-based); anything else is taken as a slug itself. A number out of
/// range resolves to nothing.
pub fn resolve_book_ref(slugs: &Vec<String>, book_ref: &str) -> (r: Option<String>)
    ensures
        match r {
            Some(s) => {
                if crate::textutil::is_numeral(book_ref@) && crate::textutil::numeral_val(
                    book_ref@,
                ) <= usize::MAX as nat {
                    let k = crate::textutil::numeral_val(book_ref@);
                    &&& 1 <= k <= slugs@.len()
                    &&& s@ == slugs@[k - 1]@
                } else {
                    s@ == book_ref@
                }
            },
            None => {
                &&& crate::textutil::is_numeral(book_ref@)
                &&& crate::textutil::numeral_val(book_ref@) <= usize::MAX as nat
                &&& !(1 <= crate::textutil::numeral_val(book_ref@) <= slugs@.len())
            },
        },
{
    match crate::textutil::parse_usize(book_ref) {
        Some(num) => {
            if num == 0 || num > slugs.len() {
                None
            } else {
                Some(String::from_str(slugs[num - 1].as_str()))
            }
        },
        None => Some(String::from_str(book_ref)),
    }
}

} // verus!
