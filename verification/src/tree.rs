//! Tree object text: newline-separated lines `"<hash> <path>"`, one per
//! tracked file, and the overlay merge submit performs on such listings.
//!
//! A line is split at its first space: the hash never holds a space, the
//! path may. In the spec a line is the pair `(hash, path)`.

use vstd::prelude::*;

verus! {

use crate::error::VelesError;
use vstd::string::StrSliceExecFns;
use vstd::string::StringExecFns;

/// The first position of `c` in `t`, or `-1` when `c` does not occur.
pub open spec fn first_idx(t: Seq<char>, c: char) -> int
    decreases t.len(),
{
    if t.len() == 0 {
        -1
    } else if t[0] == c {
        0
    } else {
        let r = first_idx(t.drop_first(), c);
        if r < 0 {
            -1
        } else {
            r + 1
        }
    }
}

/// What `first_idx` returns: the first occurrence, or `-1` if none.
pub proof fn lemma_first_idx_spec(t: Seq<char>, c: char)
    ensures
        first_idx(t, c) < 0 ==> forall|j: int| 0 <= j < t.len() ==> t[j] != c,
        first_idx(t, c) >= 0 ==> 0 <= first_idx(t, c) < t.len() && t[first_idx(t, c)] == c
            && forall|j: int| 0 <= j < first_idx(t, c) ==> t[j] != c,
    decreases t.len(),
{
    if t.len() > 0 && t[0] != c {
        lemma_first_idx_spec(t.drop_first(), c);
        let r = first_idx(t.drop_first(), c);
        if r < 0 {
            assert forall|j: int| 0 <= j < t.len() implies t[j] != c by {
                if j > 0 {
                    assert(t.drop_first()[j - 1] != c);
                }
            }
        } else {
            assert forall|j: int| 0 <= j < first_idx(t, c) implies t[j] != c by {
                if j > 0 {
                    assert(t.drop_first()[j - 1] != c);
                }
            }
        }
    }
}

/// A position that holds `c`, with nothing but other characters before
/// it, is the first occurrence.
pub proof fn lemma_first_idx_unique(t: Seq<char>, c: char, p: int)
    requires
        0 <= p < t.len(),
        t[p] == c,
        forall|j: int| 0 <= j < p ==> t[j] != c,
    ensures
        first_idx(t, c) == p,
    decreases t.len(),
{
    if p > 0 {
        assert forall|j: int| 0 <= j < p - 1 implies t.drop_first()[j] != c by {
            assert(t[j + 1] != c);
        }
        assert(t.drop_first()[p - 1] == c);
        lemma_first_idx_unique(t.drop_first(), c, p - 1);
    }
}

/// One line of tree text: `hash`, a space, `path`, a newline.
pub open spec fn line_text(line: (Seq<char>, Seq<char>)) -> Seq<char> {
    line.0 + seq![' '] + line.1 + seq!['\n']
}

/// The text of a whole listing, one line per entry, in order.
pub open spec fn tree_text(lines: Seq<(Seq<char>, Seq<char>)>) -> Seq<char>
    decreases lines.len(),
{
    if lines.len() == 0 {
        Seq::empty()
    } else {
        line_text(lines.first()) + tree_text(lines.drop_first())
    }
}

/// Parses tree text back into its `(hash, path)` lines. `None` when a
/// line lacks its newline or its space.
pub open spec fn parse_tree_spec(t: Seq<char>) -> Option<Seq<(Seq<char>, Seq<char>)>>
    decreases t.len(),
{
    if t.len() == 0 {
        Some(Seq::empty())
    } else {
        let nl = first_idx(t, '\n');
        if nl < 0 || nl >= t.len() {
            None
        } else {
            let line = t.take(nl);
            let rest = t.skip(nl + 1);
            let sp = first_idx(line, ' ');
            if sp < 0 {
                None
            } else {
                match parse_tree_spec(rest) {
                    Option::None => None,
                    Option::Some(more) => Some(
                        seq![(line.take(sp), line.skip(sp + 1))] + more,
                    ),
                }
            }
        }
    }
}

/// A listing that the text format can carry faithfully: hashes hold no
/// space and no newline, paths hold no newline.
pub open spec fn lines_wf(lines: Seq<(Seq<char>, Seq<char>)>) -> bool {
    forall|i: int|
        0 <= i < lines.len() ==> {
            &&& !(#[trigger] lines[i]).0.contains(' ')
            &&& !lines[i].0.contains('\n')
            &&& !lines[i].1.contains('\n')
        }
}

/// Serializing a well-formed listing and parsing the text back gives the
/// same listing.
pub proof fn lemma_tree_text_roundtrip(lines: Seq<(Seq<char>, Seq<char>)>)
    requires
        lines_wf(lines),
    ensures
        parse_tree_spec(tree_text(lines)) == Some(lines),
    decreases lines.len(),
{
    if lines.len() == 0 {
    } else {
        let first = lines.first();
        let lt = line_text(first);
        let rest_text = tree_text(lines.drop_first());
        let t = lt + rest_text;
        let h = first.0;
        let p = first.1;
        let nl_pos: int = h.len() as int + 1 + p.len() as int;
        assert(t[nl_pos] == '\n');
        assert(!h.contains(' ') && !h.contains('\n') && !p.contains('\n'));
        assert forall|j: int| 0 <= j < nl_pos implies t[j] != '\n' by {
            if j < h.len() {
                assert(t[j] == h[j]);
                assert(!h.contains('\n'));
                if t[j] == '\n' {
                    assert(h.contains('\n'));
                }
            } else if j == h.len() {
                assert(t[j] == ' ');
            } else {
                assert(t[j] == p[j - h.len() - 1]);
                if t[j] == '\n' {
                    assert(p.contains('\n'));
                }
            }
        }
        lemma_first_idx_unique(t, '\n', nl_pos);
        let line = t.take(nl_pos);
        assert(line =~= h + seq![' '] + p);
        assert(line[h.len() as int] == ' ');
        assert forall|j: int| 0 <= j < h.len() implies line[j] != ' ' by {
            assert(line[j] == h[j]);
            if line[j] == ' ' {
                assert(h.contains(' '));
            }
        }
        lemma_first_idx_unique(line, ' ', h.len() as int);
        assert(line.take(h.len() as int) =~= h);
        assert(line.skip(h.len() as int + 1) =~= p);
        assert(t.skip(nl_pos + 1) =~= rest_text);
        lemma_tree_text_roundtrip(lines.drop_first());
        assert(seq![(h, p)] + lines.drop_first() =~= lines);
    }
}

/// Whatever parses is well formed: a parsed hash can hold neither a
/// space nor a newline, and a parsed path no newline.
pub proof fn lemma_parse_tree_wf(t: Seq<char>)
    requires
        parse_tree_spec(t) is Some,
    ensures
        lines_wf(parse_tree_spec(t)->Some_0),
    decreases t.len(),
{
    if t.len() == 0 {
    } else {
        let nl = first_idx(t, '\n');
        lemma_first_idx_spec(t, '\n');
        let line = t.take(nl);
        let rest = t.skip(nl + 1);
        let sp = first_idx(line, ' ');
        lemma_first_idx_spec(line, ' ');
        lemma_parse_tree_wf(rest);
        let h = line.take(sp);
        let p = line.skip(sp + 1);
        assert(!h.contains(' ')) by {
            if h.contains(' ') {
                let j = choose|j: int| 0 <= j < h.len() && h[j] == ' ';
                assert(line[j] == ' ');
            }
        }
        assert(!h.contains('\n')) by {
            if h.contains('\n') {
                let j = choose|j: int| 0 <= j < h.len() && h[j] == '\n';
                assert(t[j] == '\n');
            }
        }
        assert(!p.contains('\n')) by {
            if p.contains('\n') {
                let j = choose|j: int| 0 <= j < p.len() && p[j] == '\n';
                assert(t[sp + 1 + j] == '\n');
            }
        }
        let lines = parse_tree_spec(t)->Some_0;
        let more = parse_tree_spec(rest)->Some_0;
        assert forall|i: int| 0 <= i < lines.len() implies {
            &&& !(#[trigger] lines[i]).0.contains(' ')
            &&& !lines[i].0.contains('\n')
            &&& !lines[i].1.contains('\n')
        } by {
            if i == 0 {
                assert(lines[0] == (h, p));
            } else {
                assert(lines[i] == more[i - 1]);
            }
        }
    }
}

/// Appending one entry appends its line to the text.
pub proof fn lemma_tree_text_snoc(lines: Seq<(Seq<char>, Seq<char>)>, x: (Seq<char>, Seq<char>))
    ensures
        tree_text(lines.push(x)) == tree_text(lines) + line_text(x),
    decreases lines.len(),
{
    if lines.len() == 0 {
        assert(lines.push(x).drop_first() =~= lines);
        assert(lines.push(x).first() == x);
        assert(tree_text(lines.push(x)) =~= tree_text(lines) + line_text(x));
    } else {
        lemma_tree_text_snoc(lines.drop_first(), x);
        assert(lines.push(x).drop_first() =~= lines.drop_first().push(x));
        assert(lines.push(x).first() == lines.first());
        assert(tree_text(lines.push(x)) =~= tree_text(lines) + line_text(x));
    }
}

/// The first entry for `path`, or `-1` when no entry names it.
pub open spec fn find_line(lines: Seq<(Seq<char>, Seq<char>)>, path: Seq<char>) -> int
    decreases lines.len(),
{
    if lines.len() == 0 {
        -1
    } else if lines.first().1 == path {
        0
    } else {
        let r = find_line(lines.drop_first(), path);
        if r < 0 {
            -1
        } else {
            r + 1
        }
    }
}

/// What `find_line` returns: the first entry for the path, or `-1`.
pub proof fn lemma_find_line_spec(lines: Seq<(Seq<char>, Seq<char>)>, path: Seq<char>)
    ensures
        find_line(lines, path) < 0 ==> forall|j: int| 0 <= j < lines.len() ==> lines[j].1 != path,
        find_line(lines, path) >= 0 ==> 0 <= find_line(lines, path) < lines.len() && lines[find_line(
            lines,
            path,
        )].1 == path && forall|j: int| 0 <= j < find_line(lines, path) ==> lines[j].1 != path,
    decreases lines.len(),
{
    if lines.len() > 0 && lines.first().1 != path {
        lemma_find_line_spec(lines.drop_first(), path);
        let r = find_line(lines.drop_first(), path);
        if r < 0 {
            assert forall|j: int| 0 <= j < lines.len() implies lines[j].1 != path by {
                if j > 0 {
                    assert(lines.drop_first()[j - 1].1 != path);
                }
            }
        } else {
            assert forall|j: int| 0 <= j < find_line(lines, path) implies lines[j].1 != path by {
                if j > 0 {
                    assert(lines.drop_first()[j - 1].1 != path);
                }
            }
        }
    }
}

/// The listing after one overlay: the first entry for the path gets the
/// new hash, or a new entry is appended when the path is new.
pub open spec fn upsert_spec(
    lines: Seq<(Seq<char>, Seq<char>)>,
    hash: Seq<char>,
    path: Seq<char>,
) -> Seq<(Seq<char>, Seq<char>)> {
    let i = find_line(lines, path);
    if i >= 0 {
        lines.update(i, (hash, path))
    } else {
        lines.push((hash, path))
    }
}

/// The listing after overlaying every change, in order; a later change
/// for the same path wins.
pub open spec fn merge_spec(
    base: Seq<(Seq<char>, Seq<char>)>,
    changes: Seq<(Seq<char>, Seq<char>)>,
) -> Seq<(Seq<char>, Seq<char>)>
    decreases changes.len(),
{
    if changes.len() == 0 {
        base
    } else {
        upsert_spec(merge_spec(base, changes.drop_last()), changes.last().0, changes.last().1)
    }
}

/// An overlay for one path leaves every entry for other paths in place.
proof fn lemma_upsert_keeps_other(
    lines: Seq<(Seq<char>, Seq<char>)>,
    hash: Seq<char>,
    path: Seq<char>,
    p: Seq<char>,
)
    requires
        p != path,
        find_line(lines, p) >= 0,
    ensures
        ({
            let out = upsert_spec(lines, hash, path);
            &&& find_line(out, p) == find_line(lines, p)
            &&& out[find_line(lines, p)] == lines[find_line(lines, p)]
        }),
{
    let out = upsert_spec(lines, hash, path);
    let i = find_line(lines, p);
    lemma_find_line_spec(lines, p);
    let j = find_line(lines, path);
    lemma_find_line_spec(lines, path);
    assert(out[i] == lines[i]);
    assert forall|k: int| 0 <= k < i implies out[k].1 != p by {
        assert(lines[k].1 != p);
    }
    lemma_find_line_unique(out, p, i);
}

/// A position holding the path, with no earlier entry for it, is what
/// `find_line` returns.
proof fn lemma_find_line_unique(lines: Seq<(Seq<char>, Seq<char>)>, path: Seq<char>, i: int)
    requires
        0 <= i < lines.len(),
        lines[i].1 == path,
        forall|j: int| 0 <= j < i ==> lines[j].1 != path,
    ensures
        find_line(lines, path) == i,
    decreases lines.len(),
{
    if i > 0 {
        assert forall|j: int| 0 <= j < i - 1 implies lines.drop_first()[j].1 != path by {
            assert(lines[j + 1].1 != path);
        }
        assert(lines.drop_first()[i - 1].1 == path);
        lemma_find_line_unique(lines.drop_first(), path, i - 1);
    }
}

/// Changeset merging keeps the base: every path in the base listing that
/// no change names keeps exactly its old hash in the merged listing.
pub proof fn lemma_merge_keeps_base(
    base: Seq<(Seq<char>, Seq<char>)>,
    changes: Seq<(Seq<char>, Seq<char>)>,
    p: Seq<char>,
)
    requires
        find_line(base, p) >= 0,
        forall|j: int| 0 <= j < changes.len() ==> (#[trigger] changes[j]).1 != p,
    ensures
        ({
            let merged = merge_spec(base, changes);
            &&& find_line(merged, p) == find_line(base, p)
            &&& merged[find_line(base, p)] == base[find_line(base, p)]
        }),
    decreases changes.len(),
{
    if changes.len() > 0 {
        lemma_merge_keeps_base(base, changes.drop_last(), p);
        lemma_upsert_keeps_other(
            merge_spec(base, changes.drop_last()),
            changes.last().0,
            changes.last().1,
            p,
        );
    }
}

/// Overlaying well-formed changes on a well-formed listing keeps the
/// listing well formed.
pub proof fn lemma_merge_wf(
    base: Seq<(Seq<char>, Seq<char>)>,
    changes: Seq<(Seq<char>, Seq<char>)>,
)
    requires
        lines_wf(base),
        lines_wf(changes),
    ensures
        lines_wf(merge_spec(base, changes)),
    decreases changes.len(),
{
    if changes.len() > 0 {
        lemma_merge_wf(base, changes.drop_last());
        assert(lines_wf(changes.drop_last()));
        let before = merge_spec(base, changes.drop_last());
        let c = changes.last();
        assert(!c.0.contains(' ') && !c.0.contains('\n') && !c.1.contains('\n'));
        let out = merge_spec(base, changes);
        assert forall|i: int| 0 <= i < out.len() implies {
            &&& !(#[trigger] out[i]).0.contains(' ')
            &&& !out[i].0.contains('\n')
            &&& !out[i].1.contains('\n')
        } by {
            let j = find_line(before, c.1);
            lemma_find_line_spec(before, c.1);
            if j >= 0 {
                if i != j {
                    assert(out[i] == before[i]);
                }
            } else {
                if i < before.len() {
                    assert(out[i] == before[i]);
                }
            }
        }
    }
}

/// One entry of a tree listing as executable data.
pub struct TreeLine {
    pub hash: String,
    pub path: String,
}

/// The `(hash, path)` pairs of a listing.
pub open spec fn lines_view(s: Seq<TreeLine>) -> Seq<(Seq<char>, Seq<char>)> {
    Seq::new(s.len(), |i: int| (s[i].hash@, s[i].path@))
}

/// Serializes a listing into tree text.
pub fn tree_lines_to_text(lines: &Vec<TreeLine>) -> (r: String)
    ensures
        r@ == tree_text(lines_view(lines@)),
{
    let mut out = String::new();
    let n: usize = lines.len();
    proof {
        assert(lines_view(lines@).take(0) =~= Seq::<(Seq<char>, Seq<char>)>::empty());
        reveal_strlit(" ");
        reveal_strlit("\n");
    }
    let mut i: usize = 0;
    while i < n
        invariant
            n == lines@.len(),
            i <= n,
            out@ == tree_text(lines_view(lines@).take(i as int)),
            " "@ == seq![' '],
            "\n"@ == seq!['\n'],
        decreases n - i,
    {
        out.append(lines[i].hash.as_str());
        out.append(" ");
        out.append(lines[i].path.as_str());
        out.append("\n");
        proof {
            let lv = lines_view(lines@);
            lemma_tree_text_snoc(lv.take(i as int), lv[i as int]);
            assert(lv.take(i + 1) =~= lv.take(i as int).push(lv[i as int]));
            assert(out@ =~= tree_text(lv.take(i as int)) + line_text(lv[i as int]));
            assert(out@ =~= tree_text(lv.take(i + 1)));
        }
        i = i + 1;
    }
    proof {
        assert(lines_view(lines@).take(n as int) =~= lines_view(lines@));
    }
    out
}

/// Parses tree text into its listing; a line without its newline or its
/// space is a serialization failure.
pub fn parse_tree_lines(text: &str) -> (r: Result<Vec<TreeLine>, VelesError>)
    ensures
        r matches Ok(v) ==> parse_tree_spec(text@) == Some(lines_view(v@)),
        r is Err <==> parse_tree_spec(text@) is None,
        r matches Err(e) ==> e == VelesError::SerializationError,
{
    let len: usize = text.unicode_len();
    let mut lines: Vec<TreeLine> = Vec::new();
    let mut pos: usize = 0;
    proof {
        assert(text@.skip(0) =~= text@);
        assert(lines_view(lines@) =~= Seq::<(Seq<char>, Seq<char>)>::empty());
        match parse_tree_spec(text@) {
            Option::Some(rest) => {
                assert(lines_view(lines@) + rest =~= rest);
            },
            Option::None => {},
        }
    }
    while pos < len
        invariant
            len == text@.len(),
            pos <= len,
            match parse_tree_spec(text@.skip(pos as int)) {
                Option::Some(rest) => parse_tree_spec(text@) == Some(lines_view(lines@) + rest),
                Option::None => parse_tree_spec(text@) is None,
            },
        decreases len - pos,
    {
        let ghost suffix = text@.skip(pos as int);
        // Find the newline that ends this line.
        let mut nl: usize = pos;
        while nl < len && text.get_char(nl) != '\n'
            invariant
                len == text@.len(),
                pos <= nl <= len,
                forall|j: int| pos <= j < nl ==> text@[j] != '\n',
            decreases len - nl,
        {
            nl = nl + 1;
        }
        if nl == len {
            proof {
                lemma_first_idx_spec(suffix, '\n');
                if first_idx(suffix, '\n') >= 0 {
                    assert(text@[pos + first_idx(suffix, '\n')] == '\n');
                }
            }
            return Err(VelesError::SerializationError);
        }
        proof {
            assert(suffix[nl - pos] == '\n');
            assert forall|j: int| 0 <= j < nl - pos implies suffix[j] != '\n' by {
                assert(text@[pos + j] != '\n');
            }
            lemma_first_idx_unique(suffix, '\n', nl - pos);
        }
        // Find the space that splits hash from path.
        let mut sp: usize = pos;
        while sp < nl && text.get_char(sp) != ' '
            invariant
                len == text@.len(),
                pos <= sp <= nl < len,
                forall|j: int| pos <= j < sp ==> text@[j] != ' ',
            decreases nl - sp,
        {
            sp = sp + 1;
        }
        let ghost line = suffix.take(nl - pos);
        proof {
            assert forall|j: int| 0 <= j < nl - pos implies line[j] == text@[pos + j] by {}
        }
        if sp == nl {
            proof {
                lemma_first_idx_spec(line, ' ');
                if first_idx(line, ' ') >= 0 {
                    assert(line[first_idx(line, ' ')] == ' ');
                    assert(text@[pos + first_idx(line, ' ')] == ' ');
                }
            }
            return Err(VelesError::SerializationError);
        }
        proof {
            assert(line[sp - pos] == ' ');
            assert forall|j: int| 0 <= j < sp - pos implies line[j] != ' ' by {
                assert(text@[pos + j] != ' ');
            }
            lemma_first_idx_unique(line, ' ', sp - pos);
        }
        let hash: String = text.substring_char(pos, sp).to_owned();
        let path: String = text.substring_char(sp + 1, nl).to_owned();
        proof {
            assert(hash@ =~= line.take(sp - pos));
            assert(path@ =~= line.skip(sp - pos + 1));
        }
        let ghost lines0 = lines@;
        lines.push(TreeLine { hash, path });
        proof {
            assert(lines_view(lines@) =~= lines_view(lines0).push((hash@, path@)));
            let rest_suffix = text@.skip(nl + 1);
            assert(rest_suffix =~= suffix.skip(nl - pos + 1));
            match parse_tree_spec(rest_suffix) {
                Option::Some(more) => {
                    assert(parse_tree_spec(suffix) == Some(
                        seq![(line.take(sp - pos), line.skip(sp - pos + 1))] + more,
                    ));
                    assert(lines_view(lines@) + more =~= lines_view(lines0) + (seq![
                        (line.take(sp - pos), line.skip(sp - pos + 1)),
                    ] + more));
                },
                Option::None => {},
            }
        }
        pos = nl + 1;
    }
    proof {
        assert(text@.skip(len as int) =~= Seq::<char>::empty());
        assert(lines_view(lines@) + Seq::<(Seq<char>, Seq<char>)>::empty() =~= lines_view(lines@));
    }
    Ok(lines)
}

/// Overlays one change onto a listing in place.
pub fn upsert_line(lines: &mut Vec<TreeLine>, hash: String, path: String)
    ensures
        lines_view(final(lines)@) == upsert_spec(lines_view(old(lines)@), hash@, path@),
{
    let ghost lv0 = lines_view(lines@);
    let ghost hv = hash@;
    let ghost pv = path@;
    proof {
        lemma_find_line_spec(lv0, path@);
    }
    let mut i: usize = 0;
    let n: usize = lines.len();
    while i < n
        invariant
            n == lines@.len(),
            i <= n,
            lv0 == lines_view(lines@),
            lv0 == lines_view(old(lines)@),
            hv == hash@,
            pv == path@,
            forall|j: int| 0 <= j < i ==> (#[trigger] lv0[j]).1 != path@,
        decreases n - i,
    {
        if lines[i].path.eq(&path) {
            proof {
                assert(lv0[i as int].1 == path@);
                lemma_find_line_unique(lv0, path@, i as int);
            }
            lines[i] = TreeLine { hash, path };
            proof {
                assert(lines@[i as int].hash@ == hv && lines@[i as int].path@ == pv);
                assert(lines_view(lines@) =~= upsert_spec(lv0, hv, pv));
            }
            return ;
        }
        i = i + 1;
    }
    lines.push(TreeLine { hash, path });
    proof {
        assert(lines@[lines@.len() - 1].hash@ == hv && lines@[lines@.len() - 1].path@ == pv);
        assert(lines_view(lines@) =~= upsert_spec(lv0, hv, pv));
    }
}

} // verus!
