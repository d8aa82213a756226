//! Canonical tag sets. A `TagSet` holds lowercase, non-empty tag tokens in
//! strictly sorted order, so that two tag sets are equal exactly when their
//! token sets are equal, and its rendered text frames the tokens with the
//! delimiter so that containment checks cannot confuse tags that are textual
//! prefixes of one another.
use crate::text::{
    is_lower_seq, lemma_lower_seq_fixed, lemma_lower_seq_is_lower,
    lemma_trim_id, lex_le, lex_lt, lower_seq, lower_str, push_char, spec_is_space, spec_is_upper,
    spec_lower_char, spec_trim, str_eq, str_le, trim_end, trim_start, trim_str,
};
use crate::text::{lemma_lex_le_antisym, lemma_lex_le_total, lemma_lex_le_trans};
use vstd::prelude::*;

verus! {

/// The character views of a sequence of strings.
pub open spec fn views_of(v: Seq<String>) -> Seq<Seq<char>> {
    v.map_values(|x: String| x@)
}

/// Pushing a string appends its view to the views.
pub proof fn lemma_views_push(v: Seq<String>, s: String)
    ensures
        views_of(v.push(s)) == views_of(v).push(s@),
{
    assert forall|k: int| 0 <= k < v.len() + 1 implies views_of(v.push(s))[k] == views_of(
        v,
    ).push(s@)[k] by {
        if k < v.len() {
            assert(v.push(s)[k] == v[k]);
            assert(views_of(v)[k] == v[k]@);
        } else {
            assert(v.push(s)[k] == s);
        }
    }
    assert(views_of(v.push(s)) =~= views_of(v).push(s@));
}

/// No comma anywhere in the token.
pub open spec fn comma_free(t: Seq<char>) -> bool {
    forall|i: int| 0 <= i < t.len() ==> #[trigger] t[i] != ','
}

/// A well-formed tag token: non-empty, comma-free, lowercase, and without
/// whitespace at either edge.
pub open spec fn wf_token(t: Seq<char>) -> bool {
    &&& t.len() > 0
    &&& comma_free(t)
    &&& is_lower_seq(t)
    &&& !spec_is_space(t[0])
    &&& !spec_is_space(t.last())
}

/// Strictly sorted token list: ordered and duplicate-free.
pub open spec fn sorted_unique(toks: Seq<Seq<char>>) -> bool {
    forall|i: int, j: int| 0 <= i < j < toks.len() ==> lex_lt(#[trigger] toks[i], #[trigger] toks[j])
}

pub open spec fn all_wf(toks: Seq<Seq<char>>) -> bool {
    forall|i: int| 0 <= i < toks.len() ==> wf_token(#[trigger] toks[i])
}

/// The comma-separated fields of a raw tag string, empties included.
pub open spec fn fields_of(s: Seq<char>) -> Seq<Seq<char>>
    decreases s.len(),
{
    if s.len() == 0 {
        seq![Seq::<char>::empty()]
    } else if s.last() == ',' {
        fields_of(s.drop_last()).push(Seq::<char>::empty())
    } else {
        let f = fields_of(s.drop_last());
        f.update(f.len() - 1, f.last().push(s.last()))
    }
}

/// Cleaning one raw field: trim whitespace, then lowercase.
pub open spec fn clean_field(f: Seq<char>) -> Seq<char> {
    lower_seq(spec_trim(f))
}

/// The set of non-empty cleaned fields.
pub open spec fn clean_set(fields: Seq<Seq<char>>) -> Set<Seq<char>> {
    fields.map_values(|f: Seq<char>| clean_field(f)).to_set().filter(
        |t: Seq<char>| t.len() > 0,
    )
}

/// The tag tokens denoted by a raw comma-separated tag string: split on
/// commas, trim, lowercase, drop empties, and forget order and repetition.
pub open spec fn tag_tokens_of(s: Seq<char>) -> Set<Seq<char>> {
    clean_set(fields_of(s))
}

/// The canonical rendering of a token list: every token followed by the
/// delimiter, with one leading delimiter in front.
pub open spec fn rendered(toks: Seq<Seq<char>>) -> Seq<char>
    decreases toks.len(),
{
    if toks.len() == 0 {
        seq![',']
    } else {
        rendered(toks.drop_last()) + toks.last() + seq![',']
    }
}

/// A canonical set of tag tokens.
#[derive(Debug)]
pub struct TagSet {
    pub tokens: Vec<String>,
}

impl View for TagSet {
    type V = Set<Seq<char>>;

    /// A tag set denotes the set of its tokens' character sequences.
    open spec fn view(&self) -> Set<Seq<char>> {
        views_of(self.tokens@).to_set()
    }
}

impl TagSet {
    /// The tokens in canonical order.
    pub open spec fn toks(&self) -> Seq<Seq<char>> {
        views_of(self.tokens@)
    }

    /// Canonical well-formedness: sorted, duplicate-free, well-formed tokens.
    pub open spec fn wf(&self) -> bool {
        sorted_unique(self.toks()) && all_wf(self.toks())
    }

    /// The empty tag set.
    pub fn empty() -> (r: TagSet)
        ensures
            r.wf(),
            r@ == Set::<Seq<char>>::empty(),
            r.toks().len() == 0,
    {
        let r = TagSet { tokens: Vec::new() };
        proof {
            assert(r.toks() =~= Seq::<Seq<char>>::empty());
            assert(r@ =~= Set::<Seq<char>>::empty());
        }
        r
    }

    /// Number of tags.
    pub fn len(&self) -> (n: usize)
        ensures
            n == self.toks().len(),
    {
        self.tokens.len()
    }

    /// Whether the given token is one of the tags.
    pub fn has_tag(&self, t: &str) -> (r: bool)
        ensures
            r == self@.contains(t@),
    {
        let n = self.tokens.len();
        let mut i: usize = 0;
        while i < n
            invariant
                i <= n,
                n == self.tokens@.len(),
                forall|k: int| 0 <= k < i ==> self.toks()[k] != t@,
            decreases n - i,
        {
            if str_eq(self.tokens[i].as_str(), t) {
                proof {
                    assert(self.toks()[i as int] == t@);
                    assert(self.toks().contains(t@));
                }
                return true;
            }
            i = i + 1;
        }
        proof {
            assert(forall|k: int| 0 <= k < self.toks().len() ==> self.toks()[k] != t@);
            assert(!self.toks().contains(t@));
        }
        false
    }

    /// Whether every tag of `self` is also a tag of `other`.
    pub fn is_subset_of(&self, other: &TagSet) -> (r: bool)
        ensures
            r == self@.subset_of(other@),
    {
        let n = self.tokens.len();
        let mut i: usize = 0;
        while i < n
            invariant
                i <= n,
                n == self.tokens@.len(),
                forall|k: int| 0 <= k < i ==> other@.contains(#[trigger] self.toks()[k]),
            decreases n - i,
        {
            if !other.has_tag(self.tokens[i].as_str()) {
                proof {
                    assert(self@.contains(self.toks()[i as int]));
                }
                return false;
            }
            i = i + 1;
        }
        proof {
            assert forall|t: Seq<char>| self@.contains(t) implies other@.contains(t) by {
                let k = choose|k: int| 0 <= k < self.toks().len() && self.toks()[k] == t;
                assert(other@.contains(self.toks()[k]));
            }
        }
        true
    }

    /// Whether `self` and `other` share at least one tag.
    pub fn intersects_with(&self, other: &TagSet) -> (r: bool)
        ensures
            r == exists|t: Seq<char>| self@.contains(t) && other@.contains(t),
    {
        let n = self.tokens.len();
        let mut i: usize = 0;
        while i < n
            invariant
                i <= n,
                n == self.tokens@.len(),
                forall|k: int| 0 <= k < i ==> !other@.contains(#[trigger] self.toks()[k]),
            decreases n - i,
        {
            if other.has_tag(self.tokens[i].as_str()) {
                proof {
                    assert(self@.contains(self.toks()[i as int]) && other@.contains(
                        self.toks()[i as int],
                    ));
                }
                return true;
            }
            i = i + 1;
        }
        proof {
            assert forall|t: Seq<char>| self@.contains(t) implies !other@.contains(t) by {
                let k = choose|k: int| 0 <= k < self.toks().len() && self.toks()[k] == t;
                assert(!other@.contains(self.toks()[k]));
            }
        }
        false
    }

    /// Whether `self` and `other` hold exactly the same tags.
    pub fn set_eq(&self, other: &TagSet) -> (r: bool)
        requires
            self.wf(),
            other.wf(),
        ensures
            r == (self@ == other@),
    {
        let n = self.tokens.len();
        let m = other.tokens.len();
        if n != m {
            proof {
                if self@ == other@ {
                    lemma_canonical_unique(self.toks(), other.toks());
                }
            }
            return false;
        }
        let mut i: usize = 0;
        while i < n
            invariant
                i <= n,
                n == self.tokens@.len(),
                n == other.tokens@.len(),
                self.wf(),
                other.wf(),
                forall|k: int| 0 <= k < i ==> self.toks()[k] == other.toks()[k],
            decreases n - i,
        {
            if !str_eq(self.tokens[i].as_str(), other.tokens[i].as_str()) {
                proof {
                    if self@ == other@ {
                        lemma_canonical_unique(self.toks(), other.toks());
                        assert(self.toks()[i as int] == other.toks()[i as int]);
                        assert(false);
                    }
                }
                return false;
            }
            i = i + 1;
        }
        proof {
            assert(self.toks() =~= other.toks());
        }
        true
    }
}

proof fn lemma_fields_len(s: Seq<char>)
    ensures
        fields_of(s).len() >= 1,
    decreases s.len(),
{
    if s.len() > 0 {
        lemma_fields_len(s.drop_last());
    }
}

proof fn lemma_fields_of_push(s: Seq<char>, c: char)
    ensures
        c == ',' ==> fields_of(s.push(c)) == fields_of(s).push(Seq::<char>::empty()),
        c != ',' ==> fields_of(s.push(c)) == fields_of(s).update(
            fields_of(s).len() - 1,
            fields_of(s).last().push(c),
        ),
{
    lemma_fields_len(s);
    let s2 = s.push(c);
    assert(s2.drop_last() =~= s);
    assert(s2.last() == c);
    assert(s2.len() > 0);
}

proof fn lemma_lower_char_keeps(c: char)
    ensures
        c != ',' ==> spec_lower_char(c) != ',',
        !spec_is_space(c) ==> !spec_is_space(spec_lower_char(c)),
{
    if spec_is_upper(c) {
        let b: u8 = c as u8;
        assert(((b + 32) as char) as u32 == (c as u32) + 32);
    }
}

proof fn lemma_trim_start_props(s: Seq<char>)
    requires
        comma_free(s),
    ensures
        comma_free(trim_start(s)),
        trim_start(s).len() > 0 ==> !spec_is_space(trim_start(s)[0]),
    decreases s.len(),
{
    if s.len() > 0 && spec_is_space(s[0]) {
        let s1 = s.subrange(1, s.len() as int);
        assert(comma_free(s1)) by {
            assert(forall|i: int| 0 <= i < s1.len() ==> #[trigger] s1[i] == s[i + 1]);
        }
        lemma_trim_start_props(s1);
    }
}

proof fn lemma_trim_end_props(s: Seq<char>)
    requires
        comma_free(s),
    ensures
        comma_free(trim_end(s)),
        trim_end(s).len() > 0 ==> !spec_is_space(trim_end(s).last()),
        trim_end(s).len() > 0 ==> trim_end(s)[0] == s[0],
    decreases s.len(),
{
    if s.len() > 0 && spec_is_space(s.last()) {
        let s1 = s.drop_last();
        assert(comma_free(s1)) by {
            assert(forall|i: int| 0 <= i < s1.len() ==> #[trigger] s1[i] == s[i]);
        }
        lemma_trim_end_props(s1);
    }
}

/// A cleaned field that came out non-empty is a well-formed token, provided
/// the raw field held no comma.
proof fn lemma_clean_field_wf(f: Seq<char>)
    requires
        comma_free(f),
        clean_field(f).len() > 0,
    ensures
        wf_token(clean_field(f)),
{
    let t = spec_trim(f);
    let r = clean_field(f);
    lemma_trim_start_props(f);
    lemma_trim_end_props(trim_start(f));
    assert(r.len() == t.len());
    assert(t.len() > 0);
    lemma_lower_seq_is_lower(t);
    assert(comma_free(r) && !spec_is_space(r[0]) && !spec_is_space(r.last())) by {
        assert(forall|i: int| 0 <= i < t.len() ==> r[i] == spec_lower_char(#[trigger] t[i]));
        assert forall|i: int| 0 <= i < t.len() implies #[trigger] r[i] != ',' by {
            lemma_lower_char_keeps(t[i]);
        }
        lemma_lower_char_keeps(t[0]);
        lemma_lower_char_keeps(t.last());
        assert(r.last() == spec_lower_char(t.last()));
    }
}

/// How `clean_set` grows when one more raw field arrives.
proof fn lemma_clean_set_push(fields: Seq<Seq<char>>, f: Seq<char>)
    ensures
        clean_field(f).len() > 0 ==> clean_set(fields.push(f)) == clean_set(fields).insert(
            clean_field(f),
        ),
        clean_field(f).len() == 0 ==> clean_set(fields.push(f)) == clean_set(fields),
{
    let cf = |x: Seq<char>| clean_field(x);
    let nonempty = |t: Seq<char>| t.len() > 0;
    assert(fields.push(f).map_values(cf) =~= fields.map_values(cf).push(clean_field(f)));
    let m = fields.map_values(cf);
    let m2 = m.push(clean_field(f));
    assert forall|x: Seq<char>| m2.to_set().contains(x) implies m.to_set().contains(x) || x
        == clean_field(f) by {
        let k = choose|k: int| 0 <= k < m2.len() && m2[k] == x;
        if k < m.len() {
            assert(m[k] == x);
        }
    }
    assert(m.to_set().contains(clean_field(f)) || m2[m.len() as int] == clean_field(f));
    assert(forall|x: Seq<char>| m.to_set().contains(x) ==> m2.to_set().contains(x)) by {
        assert(forall|k: int| 0 <= k < m.len() ==> m2[k] == #[trigger] m[k]);
    }
    if clean_field(f).len() > 0 {
        assert(clean_set(fields.push(f)) =~= clean_set(fields).insert(clean_field(f)));
    } else {
        assert(clean_set(fields.push(f)) =~= clean_set(fields));
    }
}

/// Trim then lowercase one raw field.
fn clean_token(f: &str) -> (r: String)
    ensures
        r@ == clean_field(f@),
{
    let t = trim_str(f);
    lower_str(t)
}

impl TagSet {
    /// Build the canonical tag set denoted by a raw comma-separated string:
    /// split on commas, trim each field, lowercase it, drop empties, and keep
    /// one copy of each token in sorted order.
    pub fn normalize(raw: &str) -> (r: TagSet)
        ensures
            r.wf(),
            r@ == tag_tokens_of(raw@),
    {
        let n = raw.unicode_len();
        let mut tokens: Vec<String> = Vec::new();
        let mut start: usize = 0;
        let mut pos: usize = 0;
        let ghost mut done: Seq<Seq<char>> = Seq::empty();
        proof {
            assert(views_of(tokens@) =~= Seq::<Seq<char>>::empty());
            assert(raw@.take(0) =~= Seq::<char>::empty());
            assert(raw@.subrange(0, 0) =~= Seq::<char>::empty());
            assert(fields_of(raw@.take(0)) =~= done.push(raw@.subrange(0, 0)));
            assert(views_of(tokens@).to_set() =~= clean_set(done));
            assert(done.map_values(|x: Seq<char>| clean_field(x)) =~= Seq::<Seq<char>>::empty());
        }
        while pos < n
            invariant
                start <= pos <= n,
                n == raw@.len(),
                fields_of(raw@.take(pos as int)) == done.push(
                    raw@.subrange(start as int, pos as int),
                ),
                forall|k: int| start <= k < pos ==> raw@[k] != ',',
                sorted_unique(views_of(tokens@)),
                all_wf(views_of(tokens@)),
                views_of(tokens@).to_set() == clean_set(done),
            decreases n - pos,
        {
            let ghost cur = raw@.subrange(start as int, pos as int);
            let c = raw.get_char(pos);
            proof {
                assert(raw@.take(pos + 1) =~= raw@.take(pos as int).push(c));
                lemma_fields_of_push(raw@.take(pos as int), c);
                lemma_fields_len(raw@.take(pos as int));
            }
            if c == ',' {
                let field = raw.substring_char(start, pos);
                let cleaned = clean_token(field);
                proof {
                    lemma_clean_set_push(done, cur);
                }
                if cleaned.unicode_len() > 0 {
                    proof {
                        assert(comma_free(cur));
                        lemma_clean_field_wf(cur);
                    }
                    insert_token(&mut tokens, cleaned);
                }
                proof {
                    done = done.push(cur);
                    assert(fields_of(raw@.take(pos + 1)) =~= done.push(Seq::<char>::empty()));
                    assert(raw@.subrange(pos + 1, pos + 1) =~= Seq::<char>::empty());
                }
                start = pos + 1;
            } else {
                proof {
                    let f = fields_of(raw@.take(pos as int));
                    assert(f.last() == cur);
                    assert(fields_of(raw@.take(pos + 1)) =~= done.push(cur.push(c)));
                    assert(raw@.subrange(start as int, pos + 1) =~= cur.push(c));
                }
            }
            pos = pos + 1;
        }
        let ghost cur = raw@.subrange(start as int, n as int);
        let field = raw.substring_char(start, n);
        let cleaned = clean_token(field);
        proof {
            lemma_clean_set_push(done, cur);
        }
        if cleaned.unicode_len() > 0 {
            proof {
                assert(comma_free(cur));
                lemma_clean_field_wf(cur);
            }
            insert_token(&mut tokens, cleaned);
        }
        proof {
            assert(raw@.take(n as int) =~= raw@);
            assert(fields_of(raw@) == done.push(cur));
        }
        TagSet { tokens }
    }

    /// The union of two tag sets, canonical again.
    pub fn union_with(&self, other: &TagSet) -> (r: TagSet)
        requires
            self.wf(),
            other.wf(),
        ensures
            r.wf(),
            r@ == self@.union(other@),
    {
        let mut tokens: Vec<String> = Vec::new();
        let n = self.tokens.len();
        let mut i: usize = 0;
        proof {
            assert(views_of(tokens@) =~= self.toks().take(0));
        }
        while i < n
            invariant
                i <= n,
                n == self.tokens@.len(),
                self.wf(),
                views_of(tokens@) == self.toks().take(i as int),
            decreases n - i,
        {
            let ghost prev = tokens@;
            tokens.push(self.tokens[i].clone());
            proof {
                assert(tokens@ == prev.push(self.tokens@[i as int]));
                assert(prev.len() == views_of(prev).len());
                assert(views_of(tokens@).len() == i + 1);
                assert forall|k: int| 0 <= k < i + 1 implies views_of(tokens@)[k]
                    == self.toks().take(i + 1)[k] by {
                    if k < i {
                        assert(views_of(prev)[k] == self.toks().take(i as int)[k]);
                        assert(views_of(prev)[k] == prev[k]@);
                        assert(tokens@[k] == prev[k]);
                    } else {
                        assert(tokens@[k] == self.tokens@[i as int]);
                    }
                }
                assert(views_of(tokens@) =~= self.toks().take(i + 1));
            }
            i = i + 1;
        }
        proof {
            assert(self.toks().take(n as int) =~= self.toks());
            assert(views_of(tokens@).to_set() =~= self@.union(other.toks().take(0).to_set()));
        }
        let m = other.tokens.len();
        let mut j: usize = 0;
        while j < m
            invariant
                j <= m,
                m == other.tokens@.len(),
                other.wf(),
                sorted_unique(views_of(tokens@)),
                all_wf(views_of(tokens@)),
                views_of(tokens@).to_set() == self@.union(other.toks().take(j as int).to_set()),
            decreases m - j,
        {
            proof {
                assert(wf_token(other.toks()[j as int]));
            }
            insert_token(&mut tokens, other.tokens[j].clone());
            proof {
                assert(other.toks().take(j + 1) =~= other.toks().take(j as int).push(
                    other.toks()[j as int],
                ));
                lemma_to_set_insert(other.toks().take(j as int), j as int, other.toks()[j as int]);
                assert(other.toks().take(j as int).insert(j as int, other.toks()[j as int]) =~= other.toks().take(j + 1));
                assert(views_of(tokens@).to_set() =~= self@.union(
                    other.toks().take(j + 1).to_set(),
                ));
            }
            j = j + 1;
        }
        proof {
            assert(other.toks().take(m as int) =~= other.toks());
        }
        TagSet { tokens }
    }

    /// An exact copy, canonical again.
    pub fn duplicate(&self) -> (r: TagSet)
        ensures
            r.toks() == self.toks(),
            r@ == self@,
    {
        let mut tokens: Vec<String> = Vec::new();
        let n = self.tokens.len();
        let mut i: usize = 0;
        proof {
            assert(views_of(tokens@) =~= self.toks().take(0));
        }
        while i < n
            invariant
                i <= n,
                n == self.tokens@.len(),
                views_of(tokens@) == self.toks().take(i as int),
            decreases n - i,
        {
            let t = self.tokens[i].clone();
            proof {
                lemma_views_push(tokens@, t);
                assert(self.toks().take(i as int).push(self.toks()[i as int]) =~= self.toks().take(
                    i + 1,
                ));
            }
            tokens.push(t);
            i = i + 1;
        }
        proof {
            assert(self.toks().take(n as int) =~= self.toks());
        }
        TagSet { tokens }
    }

    /// The tags of `self` that are not tags of `other`, canonical again.
    pub fn diff_with(&self, other: &TagSet) -> (r: TagSet)
        requires
            self.wf(),
            other.wf(),
        ensures
            r.wf(),
            r@ == self@.difference(other@),
    {
        let mut tokens: Vec<String> = Vec::new();
        let n = self.tokens.len();
        let mut i: usize = 0;
        proof {
            assert(views_of(tokens@) =~= Seq::<Seq<char>>::empty());
            assert(views_of(tokens@).to_set() =~= self.toks().take(0).to_set().difference(
                other@,
            ));
        }
        while i < n
            invariant
                i <= n,
                n == self.tokens@.len(),
                self.wf(),
                other.wf(),
                sorted_unique(views_of(tokens@)),
                all_wf(views_of(tokens@)),
                views_of(tokens@).to_set() == self.toks().take(i as int).to_set().difference(
                    other@,
                ),
            decreases n - i,
        {
            proof {
                assert(self.toks().take(i as int).push(self.toks()[i as int]) =~= self.toks().take(
                    i + 1,
                ));
                lemma_to_set_insert(self.toks().take(i as int), i as int, self.toks()[i as int]);
                assert(self.toks().take(i as int).insert(i as int, self.toks()[i as int])
                    =~= self.toks().take(i + 1));
            }
            if !other.has_tag(self.tokens[i].as_str()) {
                proof {
                    assert(wf_token(self.toks()[i as int]));
                }
                insert_token(&mut tokens, self.tokens[i].clone());
                proof {
                    assert(views_of(tokens@).to_set() =~= self.toks().take(
                        i + 1,
                    ).to_set().difference(other@));
                }
            } else {
                proof {
                    assert(views_of(tokens@).to_set() =~= self.toks().take(
                        i + 1,
                    ).to_set().difference(other@));
                }
            }
            i = i + 1;
        }
        proof {
            assert(self.toks().take(n as int) =~= self.toks());
        }
        TagSet { tokens }
    }

    /// The canonical text of the tag set: each token followed by the
    /// delimiter, with a leading delimiter in front, e.g. `,a,b,`.
    pub fn render(&self) -> (r: String)
        ensures
            r@ == rendered(self.toks()),
    {
        let mut r = String::new();
        push_char(&mut r, ',');
        let n = self.tokens.len();
        let mut i: usize = 0;
        proof {
            assert(r@ =~= rendered(self.toks().take(0)));
        }
        while i < n
            invariant
                i <= n,
                n == self.tokens@.len(),
                r@ == rendered(self.toks().take(i as int)),
            decreases n - i,
        {
            r.append(self.tokens[i].as_str());
            push_char(&mut r, ',');
            proof {
                let t = self.toks().take(i + 1);
                assert(t.drop_last() =~= self.toks().take(i as int));
                assert(t.last() == self.toks()[i as int]);
                assert(r@ =~= rendered(t));
            }
            i = i + 1;
        }
        proof {
            assert(self.toks().take(n as int) =~= self.toks());
        }
        r
    }
}

proof fn lemma_lex_le_refl(a: Seq<char>)
    ensures
        lex_le(a, a),
    decreases a.len(),
{
    if a.len() > 0 {
        lemma_lex_le_refl(a.subrange(1, a.len() as int));
    }
}

proof fn lemma_lex_lt_trans(a: Seq<char>, b: Seq<char>, c: Seq<char>)
    requires
        lex_lt(a, b),
        lex_lt(b, c),
    ensures
        lex_lt(a, c),
{
    lemma_lex_le_trans(a, b, c);
    if a == c {
        lemma_lex_le_antisym(a, b);
    }
}

/// Inserting a token anywhere adds exactly it to the token set.
proof fn lemma_to_set_insert(s: Seq<Seq<char>>, j: int, t: Seq<char>)
    requires
        0 <= j <= s.len(),
    ensures
        s.insert(j, t).to_set() == s.to_set().insert(t),
{
    let s2 = s.insert(j, t);
    assert forall|x: Seq<char>| s2.to_set().contains(x) implies s.to_set().insert(t).contains(
        x,
    ) by {
        let k = choose|k: int| 0 <= k < s2.len() && s2[k] == x;
        if k < j {
            assert(s[k] == x);
        } else if k == j {
            assert(x == t);
        } else {
            assert(s[k - 1] == x);
        }
    }
    assert forall|x: Seq<char>| s.to_set().insert(t).contains(x) implies s2.to_set().contains(
        x,
    ) by {
        if x == t {
            assert(s2[j] == x);
        } else {
            let k = choose|k: int| 0 <= k < s.len() && s[k] == x;
            if k < j {
                assert(s2[k] == x);
            } else {
                assert(s2[k + 1] == x);
            }
        }
    }
    assert(s2.to_set() =~= s.to_set().insert(t));
}

/// Insert a well-formed token into a canonical token list, keeping it
/// canonical; a token already present is left alone.
fn insert_token(tokens: &mut Vec<String>, t: String)
    requires
        sorted_unique(views_of(old(tokens)@)),
        all_wf(views_of(old(tokens)@)),
        wf_token(t@),
    ensures
        sorted_unique(views_of(final(tokens)@)),
        all_wf(views_of(final(tokens)@)),
        views_of(final(tokens)@).to_set() == views_of(old(tokens)@).to_set().insert(t@),
{
    let ghost toks = views_of(tokens@);
    let n = tokens.len();
    let mut j: usize = 0;
    while j < n && !str_le(t.as_str(), tokens[j].as_str())
        invariant
            j <= n,
            n == tokens@.len(),
            toks == views_of(tokens@),
            sorted_unique(toks),
            all_wf(toks),
            wf_token(t@),
            forall|k: int| 0 <= k < j ==> lex_lt(#[trigger] toks[k], t@),
        decreases n - j,
    {
        proof {
            lemma_lex_le_total(t@, toks[j as int]);
            if toks[j as int] == t@ {
                lemma_lex_le_refl(t@);
                assert(false);
            }
        }
        j = j + 1;
    }
    if j < n {
        if str_eq(t.as_str(), tokens[j].as_str()) {
            proof {
                assert(toks[j as int] == t@);
                assert(toks.to_set().contains(t@));
                assert(toks.to_set().insert(t@) =~= toks.to_set());
            }
            return ;
        }
    }
    tokens.insert(j, t);
    proof {
        let new_toks = views_of(tokens@);
        assert(new_toks =~= toks.insert(j as int, t@));
        lemma_to_set_insert(toks, j as int, t@);
        assert(all_wf(new_toks)) by {
            assert forall|k: int| 0 <= k < new_toks.len() implies wf_token(
                #[trigger] new_toks[k],
            ) by {
                if k < j {
                    assert(new_toks[k] == toks[k]);
                } else if k == j {
                    assert(new_toks[k] == t@);
                } else {
                    assert(new_toks[k] == toks[k - 1]);
                }
            }
        }
        assert(sorted_unique(new_toks)) by {
            assert forall|k1: int, k2: int| 0 <= k1 < k2 < new_toks.len() implies lex_lt(
                #[trigger] new_toks[k1],
                #[trigger] new_toks[k2],
            ) by {
                let jj = j as int;
                if k2 < jj {
                    assert(new_toks[k1] == toks[k1] && new_toks[k2] == toks[k2]);
                } else if k1 < jj && k2 == jj {
                    assert(new_toks[k1] == toks[k1] && new_toks[k2] == t@);
                } else if k1 < jj && k2 > jj {
                    assert(new_toks[k1] == toks[k1] && new_toks[k2] == toks[k2 - 1]);
                    if k2 - 1 == k1 {
                        assert(lex_lt(toks[k1], t@));
                        assert(lex_le(t@, toks[k1]));
                        lemma_lex_le_antisym(t@, toks[k1]);
                        assert(false);
                    }
                } else if k1 == jj {
                    assert(new_toks[k1] == t@ && new_toks[k2] == toks[k2 - 1]);
                    assert(lex_le(t@, toks[jj]));
                    assert(t@ != toks[jj]);
                    if k2 - 1 > jj {
                        lemma_lex_lt_trans(t@, toks[jj], toks[k2 - 1]);
                    }
                } else {
                    assert(new_toks[k1] == toks[k1 - 1] && new_toks[k2] == toks[k2 - 1]);
                }
            }
        }
    }
}

/// Two strictly sorted token lists with the same token set are identical:
/// the canonical order leaves no freedom.
pub proof fn lemma_canonical_unique(a: Seq<Seq<char>>, b: Seq<Seq<char>>)
    requires
        sorted_unique(a),
        sorted_unique(b),
        a.to_set() == b.to_set(),
    ensures
        a == b,
    decreases a.len(),
{
    if a.len() == 0 {
        if b.len() > 0 {
            assert(b.to_set().contains(b[0]));
            assert(a.contains(b[0]));
            assert(false);
        }
        assert(a =~= b);
    } else if b.len() == 0 {
        assert(a.to_set().contains(a[0]));
        assert(b.contains(a[0]));
        assert(false);
    } else {
        // Both heads are the least element of the common set, so they agree.
        assert(a.to_set().contains(a[0]));
        assert(b.contains(a[0]));
        assert(b.to_set().contains(b[0]));
        assert(a.contains(b[0]));
        let ia = choose|k: int| 0 <= k < a.len() && a[k] == b[0];
        let ib = choose|k: int| 0 <= k < b.len() && b[k] == a[0];
        if ia > 0 {
            assert(lex_lt(a[0], a[ia]));
        }
        if ib > 0 {
            assert(lex_lt(b[0], b[ib]));
        }
        if a[0] != b[0] {
            assert(lex_lt(a[0], b[0]) && lex_lt(b[0], a[0]));
            lemma_lex_le_antisym(a[0], b[0]);
            assert(false);
        }
        let a1 = a.drop_first();
        let b1 = b.drop_first();
        assert forall|t: Seq<char>| a1.to_set().contains(t) implies b1.to_set().contains(t) by {
            let k = choose|k: int| 0 <= k < a1.len() && a1[k] == t;
            assert(a[k + 1] == t);
            assert(lex_lt(a[0], t));
            assert(a.to_set().contains(t));
            assert(b.contains(t));
            let m = choose|m: int| 0 <= m < b.len() && b[m] == t;
            if m == 0 {
                assert(t == b[0]);
                lemma_lex_le_antisym(a[0], t);
                assert(false);
            }
            assert(b1[m - 1] == t);
            assert(b1.contains(t));
        }
        assert forall|t: Seq<char>| b1.to_set().contains(t) implies a1.to_set().contains(t) by {
            let k = choose|k: int| 0 <= k < b1.len() && b1[k] == t;
            assert(b[k + 1] == t);
            assert(lex_lt(b[0], t));
            assert(b.to_set().contains(t));
            assert(a.contains(t));
            let m = choose|m: int| 0 <= m < a.len() && a[m] == t;
            if m == 0 {
                assert(t == a[0]);
                lemma_lex_le_antisym(b[0], t);
                assert(false);
            }
            assert(a1[m - 1] == t);
            assert(a1.contains(t));
        }
        assert(a1.to_set() =~= b1.to_set());
        assert(sorted_unique(a1)) by {
            assert forall|i: int, j: int| 0 <= i < j < a1.len() implies lex_lt(
                #[trigger] a1[i],
                #[trigger] a1[j],
            ) by {
                assert(a1[i] == a[i + 1] && a1[j] == a[j + 1]);
            }
        }
        assert(sorted_unique(b1)) by {
            assert forall|i: int, j: int| 0 <= i < j < b1.len() implies lex_lt(
                #[trigger] b1[i],
                #[trigger] b1[j],
            ) by {
                assert(b1[i] == b[i + 1] && b1[j] == b[j + 1]);
            }
        }
        lemma_canonical_unique(a1, b1);
        assert(a =~= seq![a[0]] + a1);
        assert(b =~= seq![b[0]] + b1);
    }
}

proof fn lemma_fields_append_comma_free(s: Seq<char>, t: Seq<char>)
    requires
        comma_free(t),
    ensures
        fields_of(s + t) == fields_of(s).update(
            fields_of(s).len() - 1,
            fields_of(s).last() + t,
        ),
    decreases t.len(),
{
    lemma_fields_len(s);
    let f = fields_of(s);
    if t.len() == 0 {
        assert(s + t =~= s);
        assert(f.last() + t =~= f.last());
        assert(f.update(f.len() - 1, f.last() + t) =~= f);
    } else {
        let t1 = t.drop_last();
        let c = t.last();
        assert(comma_free(t1)) by {
            assert(forall|i: int| 0 <= i < t1.len() ==> #[trigger] t1[i] == t[i]);
        }
        assert(c != ',');
        lemma_fields_append_comma_free(s, t1);
        let g = fields_of(s + t1);
        assert(s + t =~= (s + t1).push(c));
        lemma_fields_of_push(s + t1, c);
        assert(g.len() == f.len());
        assert(g.last() == f.last() + t1);
        assert((f.last() + t1).push(c) =~= f.last() + t);
        assert(fields_of(s + t) =~= f.update(f.len() - 1, f.last() + t));
    }
}

proof fn lemma_rendered_fields(toks: Seq<Seq<char>>)
    requires
        forall|i: int| 0 <= i < toks.len() ==> comma_free(#[trigger] toks[i]),
    ensures
        fields_of(rendered(toks)) == seq![Seq::<char>::empty()] + toks + seq![
            Seq::<char>::empty(),
        ],
    decreases toks.len(),
{
    let e = Seq::<char>::empty();
    if toks.len() == 0 {
        assert(rendered(toks) == seq![',']);
        assert(seq![','].drop_last() =~= Seq::<char>::empty());
        assert(fields_of(Seq::<char>::empty()) == seq![e]);
        assert(seq![','].len() == 1 && seq![','].last() == ',');
        assert(fields_of(seq![',']) == fields_of(seq![','].drop_last()).push(e));
        assert(fields_of(seq![',']) =~= seq![e] + toks + seq![e]);
    } else {
        let dl = toks.drop_last();
        let t = toks.last();
        assert(forall|i: int| 0 <= i < dl.len() ==> #[trigger] dl[i] == toks[i]);
        lemma_rendered_fields(dl);
        let x = rendered(dl);
        let f = fields_of(x);
        assert(f == seq![e] + dl + seq![e]);
        assert(f.len() == dl.len() + 2);
        assert(f.last() == e);
        lemma_fields_append_comma_free(x, t);
        let g = fields_of(x + t);
        assert(e + t =~= t);
        assert(g == f.update(f.len() - 1, e + t));
        assert(rendered(toks) =~= (x + t).push(','));
        lemma_fields_of_push(x + t, ',');
        assert(fields_of(rendered(toks)) == g.push(e));
        assert(g.push(e) =~= seq![e] + toks + seq![e]);
    }
}

/// Cleaning the empty field gives the empty token.
proof fn lemma_clean_field_empty()
    ensures
        clean_field(Seq::<char>::empty()).len() == 0,
{
    let e = Seq::<char>::empty();
    assert(trim_start(e) == e);
    assert(trim_end(e) == e);
}

/// The cleaned token set of a canonical tag set's rendered text is exactly
/// its own token set.
pub proof fn lemma_render_round_trip(toks: Seq<Seq<char>>)
    requires
        sorted_unique(toks),
        all_wf(toks),
    ensures
        tag_tokens_of(rendered(toks)) == toks.to_set(),
{
    let e = Seq::<char>::empty();
    assert(forall|i: int| 0 <= i < toks.len() ==> comma_free(#[trigger] toks[i]));
    lemma_rendered_fields(toks);
    let fields = seq![e] + toks + seq![e];
    let cf = |x: Seq<char>| clean_field(x);
    let mapped = fields.map_values(cf);
    lemma_clean_field_empty();
    assert forall|i: int| 0 <= i < toks.len() implies cf(toks[i]) == toks[i] by {
        lemma_trim_id(toks[i]);
        lemma_lower_seq_fixed(toks[i]);
    }
    assert(mapped =~= seq![clean_field(e)] + toks + seq![clean_field(e)]);
    assert forall|x: Seq<char>| tag_tokens_of(rendered(toks)).contains(x) implies toks.to_set()
        .contains(x) by {
        assert(mapped.to_set().contains(x) && x.len() > 0);
        let k = choose|k: int| 0 <= k < mapped.len() && mapped[k] == x;
        if k == 0 || k == mapped.len() - 1 {
            assert(x.len() == 0);
            assert(false);
        }
        assert(toks[k - 1] == x);
    }
    assert forall|x: Seq<char>| toks.to_set().contains(x) implies tag_tokens_of(
        rendered(toks),
    ).contains(x) by {
        let k = choose|k: int| 0 <= k < toks.len() && toks[k] == x;
        assert(mapped[k + 1] == x);
        assert(mapped.to_set().contains(x));
        assert(x.len() > 0);
    }
    assert(tag_tokens_of(rendered(toks)) =~= toks.to_set());
}

/// Law: normalization is idempotent. Normalizing the rendered text of an
/// already-normalized tag set yields that tag set back, token for token.
pub proof fn lemma_normalize_idempotent(ts: TagSet, again: TagSet)
    requires
        ts.wf(),
        again.wf(),
        again@ == tag_tokens_of(rendered(ts.toks())),
    ensures
        again.toks() == ts.toks(),
        again@ == ts@,
{
    lemma_render_round_trip(ts.toks());
    lemma_canonical_unique(again.toks(), ts.toks());
}

/// Law: normalization is order-insensitive. Any two raw strings whose cleaned
/// token sets agree normalize to identical canonical tag sets, whatever the
/// order or repetition of their fields.
pub proof fn lemma_normalize_order_insensitive(a: TagSet, b: TagSet)
    requires
        a.wf(),
        b.wf(),
        a@ == b@,
    ensures
        a.toks() == b.toks(),
{
    lemma_canonical_unique(a.toks(), b.toks());
}

} // verus!
