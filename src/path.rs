//! Labels and paths: the validated keys used throughout the library.

use vstd::prelude::*;

verus! {

/// The separator between the labels of a path.
pub open spec fn separator() -> char {
    '/'
}

/// A label is non-empty and holds no separator.
pub open spec fn valid_label(s: Seq<char>) -> bool {
    &&& s.len() > 0
    &&& forall|i: int| 0 <= i < s.len() ==> s[i] != separator()
}

/// The text of the root label.
pub open spec fn root_text() -> Seq<char> {
    seq!['~']
}

/// Errors raised while building labels and paths, or looking them up.
#[derive(Debug, Clone, PartialEq, Eq)]
pub enum Error {
    /// The text held no label at all.
    EmptyPath,
    /// The text of a label was empty or held a separator.
    InvalidLabel(String),
    /// No entry was found at the path.
    PathNotFound(Path),
}

/// A validated name of a directory or file: non-empty, without `/`.
#[derive(Debug, PartialOrd, Ord, Hash)]
pub struct Label {
    label: String,
}

impl View for Label {
    type V = Seq<char>;

    closed spec fn view(&self) -> Seq<char> {
        self.label@
    }
}

impl Label {
    #[verifier::type_invariant]
    closed spec fn inv(self) -> bool {
        valid_label(self.label@)
    }

    /// The root label, `"~"`.
    pub fn root() -> (r: Label)
        ensures
            r@ == root_text(),
    {
        let s = String::from_str("~");
        proof {
            reveal_strlit("~");
        }
        Label { label: s }
    }

    /// Whether this is the root label.
    pub fn is_root(&self) -> (r: bool)
        ensures
            r == (self@ == root_text()),
    {
        let root = Label::root();
        self.label == root.label
    }

    /// Build a label from its text, refusing empty text or text with a separator.
    pub fn parse(text: &str) -> (r: Result<Label, Error>)
        ensures
            r is Ok <==> valid_label(text@),
            r matches Ok(l) ==> l@ == text@,
            r matches Err(e) ==> (e matches Error::InvalidLabel(s) && s@ == text@),
    {
        let n = text.unicode_len();
        if n == 0 {
            return Err(Error::InvalidLabel(String::from_str(text)));
        }
        let mut i: usize = 0;
        while i < n
            invariant
                n == text@.len(),
                i <= n,
                forall|j: int| 0 <= j < i ==> text@[j] != separator(),
            decreases n - i,
        {
            if text.get_char(i) == '/' {
                return Err(Error::InvalidLabel(String::from_str(text)));
            }
            i = i + 1;
        }
        Ok(Label { label: String::from_str(text) })
    }

    /// The text of the label.
    pub fn as_str(&self) -> (r: &str)
        ensures
            r@ == self@,
    {
        self.label.as_str()
    }
}

impl PartialEq for Label {
    fn eq(&self, other: &Label) -> (r: bool)
        ensures
            r == (self@ == other@),
    {
        self.label == other.label
    }
}

impl vstd::std_specs::cmp::PartialEqSpecImpl for Label {
    open spec fn obeys_eq_spec() -> bool {
        true
    }

    open spec fn eq_spec(&self, other: &Label) -> bool {
        self@ == other@
    }
}

impl Eq for Label {
}

impl Clone for Label {
    fn clone(&self) -> (r: Label)
        ensures
            r@ == self@,
    {
        proof {
            use_type_invariant(self);
        }
        Label { label: self.label.clone() }
    }
}

/// Drops every trailing separator.
pub open spec fn trim_end(s: Seq<char>) -> Seq<char>
    decreases s.len(),
{
    if s.len() > 0 && s.last() == separator() {
        trim_end(s.drop_last())
    } else {
        s
    }
}

/// The pieces of `s` between separators, in order; always at least one.
pub open spec fn split_on(s: Seq<char>) -> Seq<Seq<char>>
    decreases s.len(),
{
    if s.len() == 0 {
        seq![Seq::empty()]
    } else {
        let rest = split_on(s.drop_last());
        if s.last() == separator() {
            rest.push(Seq::empty())
        } else {
            rest.update(rest.len() - 1, rest.last().push(s.last()))
        }
    }
}

/// The pieces joined with a separator between each two.
pub open spec fn join(parts: Seq<Seq<char>>) -> Seq<char>
    decreases parts.len(),
{
    if parts.len() == 0 {
        Seq::empty()
    } else if parts.len() == 1 {
        parts[0]
    } else {
        join(parts.drop_last()) + seq![separator()] + parts.last()
    }
}

/// Every piece is non-empty.
pub open spec fn pieces_non_empty(parts: Seq<Seq<char>>) -> bool {
    forall|i: int| 0 <= i < parts.len() ==> #[trigger] parts[i].len() > 0
}

/// Every piece is a valid label.
pub open spec fn all_valid(parts: Seq<Seq<char>>) -> bool {
    forall|i: int| 0 <= i < parts.len() ==> valid_label(#[trigger] parts[i])
}

/// Text that parses into a path: after trailing separators are dropped, it is
/// non-empty and no piece between separators is empty.
pub open spec fn parses(s: Seq<char>) -> bool {
    &&& trim_end(s).len() > 0
    &&& pieces_non_empty(split_on(trim_end(s)))
}

pub proof fn lemma_split_len(s: Seq<char>)
    ensures
        split_on(s).len() >= 1,
    decreases s.len(),
{
    if s.len() > 0 {
        lemma_split_len(s.drop_last());
    }
}

/// Splitting and joining again gives the text back.
pub proof fn lemma_join_split(s: Seq<char>)
    ensures
        join(split_on(s)) == s,
    decreases s.len(),
{
    if s.len() > 0 {
        let p = s.drop_last();
        lemma_join_split(p);
        lemma_split_len(p);
        let rest = split_on(p);
        if s.last() == separator() {
            assert(rest.push(Seq::empty()).drop_last() =~= rest);
            assert(join(split_on(s)) =~= s);
        } else {
            let upd = rest.update(rest.len() - 1, rest.last().push(s.last()));
            if rest.len() == 1 {
                assert(join(upd) =~= s);
            } else {
                assert(upd.drop_last() =~= rest.drop_last());
                assert(upd.last() == rest.last().push(s.last()));
                assert(join(upd) == join(rest.drop_last()) + seq![separator()] + rest.last().push(
                    s.last(),
                ));
                assert(join(rest) == join(rest.drop_last()) + seq![separator()] + rest.last());
                assert(join(rest.drop_last()) + seq![separator()] + rest.last().push(s.last())
                    =~= (join(rest.drop_last()) + seq![separator()] + rest.last()).push(s.last()));
                assert(s =~= p.push(s.last()));
            }
        }
    }
}

/// No separator occurs in `s`.
pub open spec fn no_separator(s: Seq<char>) -> bool {
    forall|i: int| 0 <= i < s.len() ==> s[i] != separator()
}

proof fn lemma_split_append(z: Seq<char>, y: Seq<char>)
    requires
        no_separator(y),
    ensures
        split_on(z + y) == split_on(z).update(
            split_on(z).len() - 1,
            split_on(z).last() + y,
        ),
    decreases y.len(),
{
    lemma_split_len(z);
    if y.len() == 0 {
        assert(z + y =~= z);
        assert(split_on(z).last() + y =~= split_on(z).last());
        assert(split_on(z).update(split_on(z).len() - 1, split_on(z).last()) =~= split_on(z));
    } else {
        let y0 = y.drop_last();
        assert(no_separator(y0));
        lemma_split_append(z, y0);
        assert((z + y).drop_last() =~= z + y0);
        assert((z + y).last() == y.last());
        let r = split_on(z);
        let r0 = r.update(r.len() - 1, r.last() + y0);
        assert(split_on(z + y) =~= r0.update(r0.len() - 1, r0.last().push(y.last())));
        assert(r0.last().push(y.last()) =~= r.last() + y);
        assert(split_on(z + y) =~= r.update(r.len() - 1, r.last() + y));
    }
}

/// Joining labels and splitting again gives the labels back.
pub proof fn lemma_split_join(parts: Seq<Seq<char>>)
    requires
        parts.len() >= 1,
        all_valid(parts),
    ensures
        split_on(join(parts)) == parts,
    decreases parts.len(),
{
    if parts.len() == 1 {
        lemma_split_append(Seq::empty(), parts[0]);
        assert(Seq::<char>::empty() + parts[0] =~= parts[0]);
        assert(split_on(Seq::<char>::empty()) =~= seq![Seq::<char>::empty()]);
        assert(Seq::<char>::empty() + parts[0] =~= parts[0]);
        assert(split_on(join(parts)) =~= parts);
    } else {
        let init = parts.drop_last();
        assert(all_valid(init)) by {
            assert forall|i: int| 0 <= i < init.len() implies valid_label(#[trigger] init[i]) by {
                assert(init[i] == parts[i]);
            }
        }
        lemma_split_join(init);
        let x = join(init) + seq![separator()];
        assert(valid_label(parts[parts.len() - 1]));
        lemma_split_append(x, parts.last());
        assert(x.drop_last() =~= join(init));
        assert(split_on(x) =~= init.push(Seq::empty()));
        assert(join(parts) =~= x + parts.last());
        assert(Seq::<char>::empty() + parts.last() =~= parts.last());
        assert(split_on(join(parts)) =~= parts);
    }
}

/// The error that reading `s` as a path gives.
pub open spec fn parse_error(s: Seq<char>, e: Error) -> bool {
    match e {
        Error::EmptyPath => trim_end(s).len() == 0,
        Error::InvalidLabel(l) => trim_end(s).len() > 0 && l@.len() == 0,
        Error::PathNotFound(_) => false,
    }
}

/// Text that ends in a label keeps its end when trailing separators are dropped.
proof fn lemma_trim_noop(s: Seq<char>)
    requires
        s.len() > 0,
        s.last() != separator(),
    ensures
        trim_end(s) == s,
{
}

/// Splitting more of a text keeps the pieces already closed.
proof fn lemma_split_prefix(s: Seq<char>, i: int, j: int)
    requires
        0 <= i <= j <= s.len(),
    ensures
        split_on(s.take(i)).len() <= split_on(s.take(j)).len(),
        forall|k: int|
            0 <= k < split_on(s.take(i)).len() - 1 ==> #[trigger] split_on(s.take(j))[k]
                == split_on(s.take(i))[k],
    decreases j - i,
{
    if i < j {
        lemma_split_prefix(s, i, j - 1);
        assert(s.take(j).drop_last() =~= s.take(j - 1));
        lemma_split_len(s.take(j - 1));
    }
}

/// The texts of a sequence of labels.
pub open spec fn texts(v: Seq<Label>) -> Seq<Seq<char>> {
    v.map_values(|l: Label| l@)
}

proof fn lemma_texts_push(v: Seq<Label>, l: Label)
    ensures
        texts(v.push(l)) == texts(v).push(l@),
        all_valid(texts(v)) && valid_label(l@) ==> all_valid(texts(v.push(l))),
{
    assert(texts(v.push(l)) =~= texts(v).push(l@));
}

/// A non-empty sequence of labels.
#[derive(Debug, Hash)]
pub struct Path {
    labels: Vec<Label>,
}

impl View for Path {
    type V = Seq<Seq<char>>;

    closed spec fn view(&self) -> Seq<Seq<char>> {
        self.labels@.map_values(|l: Label| l@)
    }
}

impl Path {
    #[verifier::type_invariant]
    closed spec fn inv(self) -> bool {
        &&& self.labels.len() >= 1
        &&& all_valid(self@)
    }


    /// A copy of the labels.
    fn copy_labels(&self) -> (r: Vec<Label>)
        ensures
            r@.map_values(|l: Label| l@) == self@,
    {
        let labels = self.labels.clone();
        proof {
            assert forall|i: int| 0 <= i < labels@.len() implies labels@[i]@ == self.labels@[i]@ by {
                assert(cloned(self.labels@[i], labels@[i]));
            }
        }
        assert(labels@.map_values(|l: Label| l@) =~= self@);
        labels
    }

    /// A path of one label.
    pub fn new(label: Label) -> (r: Path)
        ensures
            r@ == seq![label@],
    {
        proof {
            use_type_invariant(&label);
        }
        let labels = vec![label];
        assert(labels@.map_values(|l: Label| l@) =~= seq![label@]);
        let r = Path { labels };
        assert(r@ =~= seq![label@]);
        r
    }

    /// The root path: the root label alone.
    pub fn root() -> (r: Path)
        ensures
            r@ == seq![root_text()],
    {
        Path::new(Label::root())
    }

    /// Whether this is the root path.
    pub fn is_root(&self) -> (r: bool)
        ensures
            r == (self@ == seq![root_text()]),
    {
        proof {
            use_type_invariant(self);
        }
        if self.labels.len() != 1 {
            assert(self@.len() != 1);
            return false;
        }
        let r = self.labels[0].is_root();
        assert(self@ =~= seq![self@[0]]);
        assert(r ==> self@ =~= seq![root_text()]);
        r
    }

    /// Appends the labels of `path` after this path's labels; `path` is kept.
    pub fn append(&mut self, path: &mut Self)
        ensures
            final(self)@ == old(self)@ + old(path)@,
            final(path)@ == old(path)@,
    {
        proof {
            use_type_invariant(&*self);
            use_type_invariant(&*path);
        }
        let mut labels = self.copy_labels();
        let mut i: usize = 0;
        let n = path.labels.len();
        while i < n
            invariant
                n == path.labels.len(),
                i <= n,
                all_valid(path@),
                all_valid(old(self)@),
                labels@.map_values(|l: Label| l@) == old(self)@ + path@.take(i as int),
            decreases n - i,
        {
            let l = path.labels[i].clone();
            proof {
                lemma_texts_push(labels@, l);
            }
            labels.push(l);
            assert(path@.take(i + 1) =~= path@.take(i as int).push(path@[i as int]));
            assert(labels@.map_values(|l: Label| l@) =~= old(self)@ + path@.take(i + 1));
            i = i + 1;
        }
        assert(path@.take(n as int) =~= path@);
        assert(all_valid(old(self)@ + path@)) by {
            let v = old(self)@ + path@;
            assert forall|k: int| 0 <= k < v.len() implies valid_label(#[trigger] v[k]) by {
                if k < old(self)@.len() {
                    assert(v[k] == old(self)@[k]);
                } else {
                    assert(v[k] == path@[k - old(self)@.len()]);
                }
            }
        }
        self.labels = labels;
    }

    /// Pushes a label onto the end of the path.
    pub fn push(&mut self, label: Label)
        ensures
            final(self)@ == old(self)@.push(label@),
    {
        proof {
            use_type_invariant(&*self);
            use_type_invariant(&label);
        }
        let mut labels = self.copy_labels();
        labels.push(label);
        assert(labels@.map_values(|l: Label| l@) =~= old(self)@.push(label@));
        assert(all_valid(old(self)@.push(label@))) by {
            let v = old(self)@.push(label@);
            assert forall|k: int| 0 <= k < v.len() implies valid_label(#[trigger] v[k]) by {
                if k < v.len() - 1 {
                    assert(v[k] == old(self)@[k]);
                }
            }
        }
        self.labels = labels;
    }

    /// Removes the last label, unless it is the only one.
    pub fn pop(&mut self) -> (r: Option<Label>)
        ensures
            old(self)@.len() == 1 ==> r is None && final(self)@ == old(self)@,
            old(self)@.len() > 1 ==> (r matches Some(l) && l@ == old(self)@.last())
                && final(self)@ == old(self)@.drop_last(),
    {
        proof {
            use_type_invariant(&*self);
        }
        if self.labels.len() == 1 {
            return None;
        }
        let mut labels = self.copy_labels();
        let r = labels.pop();
        assert(labels@.map_values(|l: Label| l@) =~= old(self)@.drop_last());
        assert(all_valid(old(self)@.drop_last())) by {
            let v = old(self)@.drop_last();
            assert forall|k: int| 0 <= k < v.len() implies valid_label(#[trigger] v[k]) by {
                assert(v[k] == old(self)@[k]);
            }
        }
        self.labels = labels;
        r
    }

    /// The labels of the path, in order.
    pub fn iter(&self) -> (r: &[Label])
        ensures
            r@.map_values(|l: Label| l@) == self@,
    {
        self.labels.as_slice()
    }

    /// The first label and the labels after it.
    pub fn split_first(&self) -> (r: (&Label, &[Label]))
        ensures
            self@.len() >= 1,
            r.0@ == self@[0],
            r.1@.map_values(|l: Label| l@) == self@.skip(1),
    {
        proof {
            use_type_invariant(self);
        }
        let (head, tail) = self.labels.as_slice().split_at(1);
        assert(tail@.map_values(|l: Label| l@) =~= self@.skip(1));
        (&head[0], tail)
    }

    /// The labels before the last, and the last label.
    pub fn split_last(&self) -> (r: (Vec<Label>, Label))
        ensures
            r.0@.map_values(|l: Label| l@) == self@.drop_last(),
            r.1@ == self@.last(),
    {
        proof {
            use_type_invariant(self);
        }
        let (prefix, last) = split_last(&self.labels);
        proof {
            assert forall|i: int| 0 <= i < prefix@.len() implies prefix@[i]@ == self.labels@[i]@ by {
                assert(cloned(self.labels@[i], prefix@[i]));
            }
            assert(cloned(self.labels@[self.labels.len() - 1], last));
        }
        assert(prefix@.map_values(|l: Label| l@) =~= self@.drop_last());
        (prefix, last)
    }

    /// A path of `root` followed by `labels`.
    pub fn from_labels(root: Label, labels: &[Label]) -> (r: Path)
        ensures
            r@ == seq![root@] + labels@.map_values(|l: Label| l@),
    {
        proof {
            use_type_invariant(&root);
        }
        let mut out: Vec<Label> = Vec::new();
        out.push(root);
        let mut i: usize = 0;
        while i < labels.len()
            invariant
                i <= labels@.len(),
                out@.len() == i + 1,
                all_valid(out@.map_values(|l: Label| l@)),
                out@.map_values(|l: Label| l@) == seq![root@] + labels@.take(i as int).map_values(
                    |l: Label| l@,
                ),
            decreases labels@.len() - i,
        {
            let l = labels[i].clone();
            proof {
                use_type_invariant(&l);
                lemma_texts_push(out@, l);
            }
            out.push(l);
            assert(labels@.take(i + 1) =~= labels@.take(i as int).push(labels@[i as int]));
            assert(out@.map_values(|l: Label| l@) =~= seq![root@] + labels@.take(i + 1).map_values(
                |l: Label| l@,
            ));
            i = i + 1;
        }
        assert(labels@.take(i as int) =~= labels@);
        Path { labels: out }
    }

    /// A path of the root label followed by `labels`.
    pub fn with_root(labels: &[Label]) -> (r: Path)
        ensures
            r@ == seq![root_text()] + labels@.map_values(|l: Label| l@),
    {
        Path::from_labels(Label::root(), labels)
    }

    /// Reads a path from its text: labels separated by `/`, trailing
    /// separators ignored.
    pub fn parse(text: &str) -> (r: Result<Path, Error>)
        ensures
            r is Ok <==> parses(text@),
            r matches Ok(p) ==> p@ == split_on(trim_end(text@)),
            r matches Err(e) ==> parse_error(text@, e),
    {
        let n = text.unicode_len();
        let mut end: usize = n;
        assert(text@.take(n as int) =~= text@);
        while end > 0 && text.get_char(end - 1) == '/'
            invariant
                n == text@.len(),
                end <= n,
                trim_end(text@) == trim_end(text@.take(end as int)),
            decreases end,
        {
            assert(text@.take(end as int).drop_last() =~= text@.take(end - 1));
            end = end - 1;
        }
        let ghost t = text@.take(end as int);
        if end == 0 {
            assert(t.len() == 0);
            return Err(Error::EmptyPath);
        }
        proof {
            lemma_trim_noop(t);
        }
        let mut labels: Vec<Label> = Vec::new();
        let mut start: usize = 0;
        let mut i: usize = 0;
        while i < end
            invariant
                n == text@.len(),
                0 < end <= n,
                t == text@.take(end as int),
                trim_end(text@) == t,
                start <= i <= end,
                all_valid(labels@.map_values(|l: Label| l@)),
                split_on(t.take(i as int)).len() == labels@.len() + 1,
                forall|k: int|
                    0 <= k < labels@.len() ==> #[trigger] labels@[k]@ == split_on(t.take(i as int))[k],
                split_on(t.take(i as int)).last() == t.subrange(start as int, i as int),
                forall|k: int| start <= k < i ==> t[k] != separator(),
            decreases end - i,
        {
            assert(t.take(i + 1).drop_last() =~= t.take(i as int));
            proof {
                lemma_split_len(t.take(i as int));
            }
            if text.get_char(i) == '/' {
                let piece = text.substring_char(start, i);
                assert(piece@ =~= t.subrange(start as int, i as int));
                if start == i {
                    proof {
                        lemma_split_prefix(t, i + 1, end as int);
                        assert(t.take(end as int) =~= t);
                        let k = labels@.len() as int;
                        assert(split_on(t.take(i + 1))[k].len() == 0);
                        assert(split_on(t)[k].len() == 0);
                    }
                    return Err(Error::InvalidLabel(String::from_str(piece)));
                }
                let label = Label { label: String::from_str(piece) };
                proof {
                    lemma_texts_push(labels@, label);
                }
                labels.push(label);
                start = i + 1;
                assert(t.subrange(start as int, i + 1) =~= Seq::<char>::empty());
            } else {
                assert(t.subrange(start as int, i + 1) =~= t.subrange(start as int, i as int).push(
                    t[i as int],
                ));
            }
            i = i + 1;
        }
        assert(t.take(end as int) =~= t);
        let piece = text.substring_char(start, end);
        assert(piece@ =~= t.subrange(start as int, end as int));
        if start == end {
            assert(split_on(t).last().len() == 0);
            assert(split_on(t)[split_on(t).len() - 1].len() == 0);
            return Err(Error::InvalidLabel(String::from_str(piece)));
        }
        let label = Label { label: String::from_str(piece) };
        proof {
            lemma_texts_push(labels@, label);
        }
        labels.push(label);
        let ghost v = labels@.map_values(|l: Label| l@);
        assert(v =~= split_on(t));
        let r = Path { labels };
        assert(pieces_non_empty(split_on(t))) by {
            assert forall|k: int| 0 <= k < split_on(t).len() implies #[trigger] split_on(t)[k].len()
                > 0 by {
                assert(valid_label(v[k]));
            }
        }
        Ok(r)
    }

    /// Reads a path from its text, relative to the root: the root label
    /// followed by the labels of `text`.
    pub fn parse_rooted(text: &str) -> (r: Result<Path, Error>)
        ensures
            r is Ok <==> parses(text@),
            r matches Ok(p) ==> p@ == seq![root_text()] + split_on(trim_end(text@)),
            r matches Err(e) ==> parse_error(text@, e),
    {
        let p = Path::parse(text)?;
        Ok(Path::from_labels(Label::root(), p.iter()))
    }

    /// Reads the directory part of a tree walk's entry: the empty text stands
    /// for the root, other text is read as a path.
    pub fn parse_tree_path(text: &str) -> (r: Result<Path, Error>)
        ensures
            text@.len() == 0 ==> (r matches Ok(p) && p@ == seq![root_text()]),
            text@.len() > 0 ==> (r is Ok <==> parses(text@)),
            text@.len() > 0 ==> (r matches Ok(p) ==> p@ == split_on(trim_end(text@))),
            r matches Err(e) ==> parse_error(text@, e),
    {
        if text.unicode_len() == 0 {
            Ok(Path::root())
        } else {
            Path::parse(text)
        }
    }

    /// The text of the path: its labels separated by `/`.
    pub fn to_text(&self) -> (r: String)
        ensures
            r@ == join(self@),
    {
        let mut out = String::new();
        let mut i: usize = 0;
        while i < self.labels.len()
            invariant
                i <= self@.len(),
                self@.len() == self.labels@.len(),
                out@ == join(self@.take(i as int)),
            decreases self.labels@.len() - i,
        {
            assert(self@.take(i + 1).drop_last() =~= self@.take(i as int));
            if i > 0 {
                out.append("/");
                proof {
                    reveal_strlit("/");
                }
            }
            out.append(self.labels[i].as_str());
            assert(out@ =~= join(self@.take(i + 1)));
            i = i + 1;
        }
        assert(self@.take(i as int) =~= self@);
        out
    }
}

impl PartialEq for Path {
    fn eq(&self, other: &Path) -> (r: bool)
        ensures
            r == (self@ == other@),
    {
        if self.labels.len() != other.labels.len() {
            assert(self@.len() != other@.len());
            return false;
        }
        let mut i: usize = 0;
        while i < self.labels.len()
            invariant
                i <= self.labels@.len(),
                self.labels@.len() == other.labels@.len(),
                forall|k: int| 0 <= k < i ==> self@[k] == other@[k],
            decreases self.labels@.len() - i,
        {
            if self.labels[i] != other.labels[i] {
                assert(self@[i as int] != other@[i as int]);
                return false;
            }
            i = i + 1;
        }
        assert(self@ =~= other@);
        true
    }
}

impl vstd::std_specs::cmp::PartialEqSpecImpl for Path {
    open spec fn obeys_eq_spec() -> bool {
        true
    }

    open spec fn eq_spec(&self, other: &Path) -> bool {
        self@ == other@
    }
}

impl Eq for Path {
}

impl Clone for Path {
    fn clone(&self) -> (r: Path)
        ensures
            r@ == self@,
    {
        proof {
            use_type_invariant(self);
        }
        let labels = self.labels.clone();
        proof {
            assert forall|i: int| 0 <= i < labels@.len() implies labels@[i]@ == self.labels@[i]@ by {
                assert(cloned(self.labels@[i], labels@[i]));
            }
        }
        assert(labels@.map_values(|l: Label| l@) =~= self@);
        let r = Path { labels };
        r
    }
}

/// The labels before the last, and the last one, of a non-empty sequence.
pub fn split_last<T: Clone>(non_empty: &Vec<T>) -> (r: (Vec<T>, T))
    requires
        non_empty@.len() >= 1,
    ensures
        r.0@.len() == non_empty@.len() - 1,
        forall|i: int| 0 <= i < r.0@.len() ==> cloned(non_empty@[i], #[trigger] r.0@[i]),
        cloned(non_empty@.last(), r.1),
{
    let n = non_empty.len();
    let mut prefix: Vec<T> = Vec::new();
    let mut i: usize = 0;
    while i + 1 < n
        invariant
            n == non_empty@.len(),
            n >= 1,
            i + 1 <= n,
            prefix@.len() == i,
            forall|k: int| 0 <= k < i ==> cloned(non_empty@[k], #[trigger] prefix@[k]),
        decreases n - i,
    {
        prefix.push(non_empty[i].clone());
        i = i + 1;
    }
    (prefix, non_empty[n - 1].clone())
}

/// Text that parses gives the same text back when its path is written out.
pub proof fn law_text_round_trip(s: Seq<char>)
    requires
        s.len() > 0,
        pieces_non_empty(split_on(s)),
    ensures
        parses(s),
        join(split_on(trim_end(s))) == s,
{
    if s.last() == separator() {
        lemma_split_len(s.drop_last());
        let parts = split_on(s);
        assert(parts[parts.len() - 1].len() == 0);
    }
    lemma_trim_noop(s);
    lemma_join_split(s);
}

/// A path written out reads back as the same path: for any non-empty
/// sequence of valid labels, its text parses back into those labels.
pub proof fn law_path_round_trip(p: Seq<Seq<char>>)
    requires
        p.len() >= 1,
        all_valid(p),
    ensures
        parses(join(p)),
        split_on(trim_end(join(p))) == p,
{
    lemma_split_join(p);
    lemma_join_last(p);
    let s = join(p);
    assert(valid_label(p[p.len() - 1]));
    lemma_trim_noop(s);
    assert(pieces_non_empty(split_on(s))) by {
        assert forall|k: int| 0 <= k < p.len() implies #[trigger] p[k].len() > 0 by {
            assert(valid_label(p[k]));
        }
    }
}

/// The last character of joined labels is that of the last label.
proof fn lemma_join_last(parts: Seq<Seq<char>>)
    requires
        parts.len() >= 1,
        all_valid(parts),
    ensures
        join(parts).len() > 0,
        join(parts).last() == parts.last().last(),
    decreases parts.len(),
{
    assert(valid_label(parts[parts.len() - 1]));
    if parts.len() > 1 {
        let x = join(parts.drop_last()) + seq![separator()];
        assert(join(parts) =~= x + parts.last());
    }
}

} // verus!
