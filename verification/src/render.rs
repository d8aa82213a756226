//! Text the core produces and consumes around actions: the editable record
//! template and its parse-back, the printed ordinal line, and the tag text
//! shown under a result.
use crate::bookmark::Bookmark;
use crate::tags::{lemma_views_push, views_of};
use crate::text::{dec_rep, number_to_string, push_char, spec_trim, trim_str};
use vstd::prelude::*;

verus! {

/// The lines of a text, split on line feeds; what follows the last line feed
/// counts as a line too, so the line list is never empty.
pub open spec fn nl_fields(s: Seq<char>) -> Seq<Seq<char>>
    decreases s.len(),
{
    if s.len() == 0 {
        seq![Seq::<char>::empty()]
    } else if s.last() == '\n' {
        nl_fields(s.drop_last()).push(Seq::<char>::empty())
    } else {
        let f = nl_fields(s.drop_last());
        f.update(f.len() - 1, f.last().push(s.last()))
    }
}

/// A comment line: it starts with the comment marker.
pub open spec fn is_comment(l: Seq<char>) -> bool {
    l.len() > 0 && l[0] == '#'
}

/// The lines with the comment lines stripped.
pub open spec fn non_comments(lines: Seq<Seq<char>>) -> Seq<Seq<char>>
    decreases lines.len(),
{
    if lines.len() == 0 {
        Seq::empty()
    } else {
        let rest = non_comments(lines.drop_last());
        if is_comment(lines.last()) {
            rest
        } else {
            rest.push(lines.last())
        }
    }
}

proof fn lemma_nl_fields_len(s: Seq<char>)
    ensures
        nl_fields(s).len() >= 1,
    decreases s.len(),
{
    if s.len() > 0 {
        lemma_nl_fields_len(s.drop_last());
    }
}

proof fn lemma_nl_fields_push(s: Seq<char>, c: char)
    ensures
        c == '\n' ==> nl_fields(s.push(c)) == nl_fields(s).push(Seq::<char>::empty()),
        c != '\n' ==> nl_fields(s.push(c)) == nl_fields(s).update(
            nl_fields(s).len() - 1,
            nl_fields(s).last().push(c),
        ),
{
    lemma_nl_fields_len(s);
    let s2 = s.push(c);
    assert(s2.drop_last() =~= s);
    assert(s2.last() == c);
    assert(s2.len() > 0);
}

proof fn lemma_non_comments_push(lines: Seq<Seq<char>>, l: Seq<char>)
    ensures
        is_comment(l) ==> non_comments(lines.push(l)) == non_comments(lines),
        !is_comment(l) ==> non_comments(lines.push(l)) == non_comments(lines).push(l),
{
    let f2 = lines.push(l);
    assert(f2.drop_last() =~= lines);
    assert(f2.last() == l);
    assert(f2.len() > 0);
}

/// The editable template for one record: four significant lines — url,
/// title, tags, description — each preceded by one comment line.
pub open spec fn template_of(bm: Bookmark) -> Seq<char> {
    "# Lines beginning with the comment marker are stripped.\n"@
        + "# Add URL in next line (single line).\n"@ + bm.url@ + "\n"@
        + "# Add TITLE in next line (single line).\n"@ + bm.title@ + "\n"@
        + "# Add comma-separated TAGS in next line (single line).\n"@ + bm.tags@ + "\n"@
        + "# Add COMMENTS in next line.\n"@ + bm.desc@ + "\n"@
}

/// Materialize the editable template for a record.
pub fn render_template(bm: &Bookmark) -> (r: String)
    ensures
        r@ == template_of(*bm),
{
    let mut r = String::new();
    r.append("# Lines beginning with the comment marker are stripped.\n");
    r.append("# Add URL in next line (single line).\n");
    r.append(bm.url.as_str());
    r.append("\n");
    r.append("# Add TITLE in next line (single line).\n");
    r.append(bm.title.as_str());
    r.append("\n");
    r.append("# Add comma-separated TAGS in next line (single line).\n");
    r.append(bm.tags.as_str());
    r.append("\n");
    r.append("# Add COMMENTS in next line.\n");
    r.append(bm.desc.as_str());
    r.append("\n");
    proof {
        assert(r@ =~= template_of(*bm));
    }
    r
}

/// Split a text into its lines.
fn split_lines(content: &str) -> (r: Vec<String>)
    ensures
        views_of(r@) == nl_fields(content@),
{
    let n = content.unicode_len();
    let mut lines: Vec<String> = Vec::new();
    let mut cur = String::new();
    let mut i: usize = 0;
    let ghost mut done: Seq<Seq<char>> = Seq::empty();
    proof {
        assert(content@.take(0) =~= Seq::<char>::empty());
        assert(nl_fields(Seq::<char>::empty()) =~= done.push(cur@));
        assert(views_of(lines@) =~= done);
    }
    while i < n
        invariant
            i <= n,
            n == content@.len(),
            nl_fields(content@.take(i as int)) == done.push(cur@),
            views_of(lines@) == done,
        decreases n - i,
    {
        let c = content.get_char(i);
        proof {
            assert(content@.take(i + 1) =~= content@.take(i as int).push(c));
            lemma_nl_fields_push(content@.take(i as int), c);
        }
        if c == '\n' {
            let ghost fv = cur@;
            let finished = cur;
            cur = String::new();
            proof {
                lemma_views_push(lines@, finished);
            }
            lines.push(finished);
            proof {
                done = done.push(fv);
            }
        } else {
            push_char(&mut cur, c);
        }
        i = i + 1;
    }
    proof {
        assert(content@.take(n as int) =~= content@);
        lemma_views_push(lines@, cur);
    }
    lines.push(cur);
    lines
}

/// Parse the edited template back: the comment lines are stripped and the
/// first four remaining lines become url, title, tags and description of the
/// record with the given id; fewer than four lines, or an empty url line, is
/// a parse failure. The store re-stamps the record's time on update.
pub fn parse_edited(content: &str, id: i64) -> (r: Option<Bookmark>)
    requires
        id >= 1,
    ensures
        match r {
            Some(bm) => {
                let lines = non_comments(nl_fields(content@));
                &&& lines.len() >= 4
                &&& lines[0].len() > 0
                &&& bm.id == id
                &&& bm.url@ == lines[0]
                &&& bm.title@ == lines[1]
                &&& bm.tags@ == lines[2]
                &&& bm.desc@ == lines[3]
                &&& bm.last_update_ts == 0
                &&& bm.wf()
            },
            None => {
                let lines = non_comments(nl_fields(content@));
                lines.len() < 4 || lines[0].len() == 0
            },
        },
{
    let lines = split_lines(content);
    let m = lines.len();
    let mut kept: Vec<String> = Vec::new();
    let mut k: usize = 0;
    proof {
        assert(views_of(lines@).take(0) =~= Seq::<Seq<char>>::empty());
        assert(views_of(kept@) =~= non_comments(views_of(lines@).take(0)));
    }
    while k < m
        invariant
            k <= m,
            m == lines@.len(),
            views_of(lines@) == nl_fields(content@),
            views_of(kept@) == non_comments(views_of(lines@).take(k as int)),
        decreases m - k,
    {
        let comment = if lines[k].unicode_len() > 0 {
            lines[k].get_char(0) == '#'
        } else {
            false
        };
        proof {
            let t = views_of(lines@).take(k + 1);
            assert(t.drop_last() =~= views_of(lines@).take(k as int));
            assert(t.last() == views_of(lines@)[k as int]);
            lemma_non_comments_push(views_of(lines@).take(k as int), views_of(lines@)[k as int]);
            assert(views_of(lines@).take(k as int).push(views_of(lines@)[k as int]) =~= t);
            assert(views_of(lines@)[k as int] == lines@[k as int]@);
        }
        if !comment {
            let line = lines[k].clone();
            proof {
                lemma_views_push(kept@, line);
            }
            kept.push(line);
        }
        k = k + 1;
    }
    proof {
        assert(views_of(lines@).take(m as int) =~= views_of(lines@));
    }
    if kept.len() < 4 {
        return None;
    }
    let url = kept[0].clone();
    if url.unicode_len() == 0 {
        return None;
    }
    proof {
        assert(views_of(kept@)[0] == kept@[0]@);
        assert(views_of(kept@)[1] == kept@[1]@);
        assert(views_of(kept@)[2] == kept@[2]@);
        assert(views_of(kept@)[3] == kept@[3]@);
    }
    Some(
        Bookmark {
            id,
            url,
            title: kept[1].clone(),
            desc: kept[3].clone(),
            tags: kept[2].clone(),
            last_update_ts: 0,
        },
    )
}

/// The space-joined rendering of a list of ordinals.
pub open spec fn joined_ords(s: Seq<u64>) -> Seq<char>
    decreases s.len(),
{
    if s.len() == 0 {
        Seq::empty()
    } else if s.len() == 1 {
        dec_rep(s[0] as nat)
    } else {
        joined_ords(s.drop_last()) + seq![' '] + dec_rep(s.last() as nat)
    }
}

/// The ordinals `1..=n`.
pub open spec fn iota(n: nat) -> Seq<u64> {
    Seq::new(n, |i: int| (i + 1) as u64)
}

/// The line the print action emits: the given ordinals space-joined, or all
/// of `1..=n` when none were given.
pub fn print_line(ords: &Vec<u64>, n: usize) -> (r: String)
    ensures
        r@ == joined_ords(
            if ords@.len() == 0 {
                iota(n as nat)
            } else {
                ords@
            },
        ),
{
    let mut eff: Vec<u64> = Vec::new();
    if ords.len() == 0 {
        let mut j: usize = 0;
        while j < n
            invariant
                j <= n,
                n <= u64::MAX,
                eff@.len() == j,
                forall|q: int| 0 <= q < j ==> #[trigger] eff@[q] == q + 1,
            decreases n - j,
        {
            eff.push((j as u64) + 1);
            j = j + 1;
        }
        proof {
            assert(eff@ =~= iota(n as nat));
        }
    } else {
        let m = ords.len();
        let mut j: usize = 0;
        while j < m
            invariant
                j <= m,
                m == ords@.len(),
                eff@ == ords@.take(j as int),
            decreases m - j,
        {
            eff.push(ords[j]);
            proof {
                assert(eff@ =~= ords@.take(j + 1));
            }
            j = j + 1;
        }
        proof {
            assert(ords@.take(m as int) =~= ords@);
        }
    }
    let ghost target = eff@;
    let len = eff.len();
    let mut r = String::new();
    let mut i: usize = 0;
    proof {
        assert(r@ =~= joined_ords(target.take(0)));
    }
    while i < len
        invariant
            i <= len,
            len == eff@.len(),
            eff@ == target,
            r@ == joined_ords(target.take(i as int)),
        decreases len - i,
    {
        if i > 0 {
            push_char(&mut r, ' ');
        }
        let num = number_to_string(eff[i]);
        r.append(num.as_str());
        proof {
            let t = target.take(i + 1);
            assert(t.drop_last() =~= target.take(i as int));
            assert(t.last() == target[i as int]);
            if i == 0 {
                assert(t.len() == 1);
                assert(t[0] == target[0]);
                assert(r@ =~= joined_ords(t));
            } else {
                assert(r@ =~= joined_ords(t));
            }
        }
        i = i + 1;
    }
    proof {
        assert(target.take(len as int) =~= target);
    }
    r
}

/// Commas shown as spaces.
pub open spec fn commas_to_spaces(s: Seq<char>) -> Seq<char> {
    s.map_values(
        |c: char|
            if c == ',' {
                ' '
            } else {
                c
            },
    )
}

/// The tag text as shown under a result: commas turned into spaces, the
/// whitespace at the edges trimmed away.
pub fn display_tags(bm: &Bookmark) -> (r: String)
    ensures
        r@ == spec_trim(commas_to_spaces(bm.tags@)),
{
    let s = bm.tags.as_str();
    let n = s.unicode_len();
    let mut mapped = String::new();
    let mut i: usize = 0;
    proof {
        assert(mapped@ =~= commas_to_spaces(s@.take(0)));
    }
    while i < n
        invariant
            i <= n,
            n == s@.len(),
            mapped@ == commas_to_spaces(s@.take(i as int)),
        decreases n - i,
    {
        let c = s.get_char(i);
        if c == ',' {
            push_char(&mut mapped, ' ');
        } else {
            push_char(&mut mapped, c);
        }
        proof {
            assert(s@.take(i + 1) =~= s@.take(i as int).push(s@[i as int]));
            assert(commas_to_spaces(s@.take(i + 1)) =~= commas_to_spaces(
                s@.take(i as int),
            ).push(
                if s@[i as int] == ',' {
                    ' '
                } else {
                    s@[i as int]
                },
            ));
        }
        i = i + 1;
    }
    proof {
        assert(s@.take(n as int) =~= s@);
    }
    let trimmed = trim_str(mapped.as_str());
    trimmed.to_owned()
}

} // verus!
