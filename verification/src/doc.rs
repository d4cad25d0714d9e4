//! Document model: styled text runs, groups, and the add / delete
//! operations that edit them, together with their mathematical views.

use vstd::prelude::*;

verus! {

/// Mathematical view of a style bag.
pub struct StyleBag {
    pub bold: bool,
    pub italic: bool,
    pub selected: bool,
    pub link: Option<Seq<char>>,
}

impl StyleBag {
    /// The bag that carries no style at all.
    pub open spec fn plain() -> StyleBag {
        StyleBag { bold: false, italic: false, selected: false, link: None }
    }

    /// Key-wise union of two bags; where both define a key, `other` wins.
    pub open spec fn overlay(self, other: StyleBag) -> StyleBag {
        StyleBag {
            bold: self.bold || other.bold,
            italic: self.italic || other.italic,
            selected: self.selected || other.selected,
            link: if other.link is Some {
                other.link
            } else {
                self.link
            },
        }
    }
}

/// A bag of styles attached to a run of text.
#[derive(Debug, PartialEq, Eq)]
pub struct StyleMap {
    pub bold: bool,
    pub italic: bool,
    pub selected: bool,
    pub link: Option<String>,
}

impl View for StyleMap {
    type V = StyleBag;

    open spec fn view(&self) -> StyleBag {
        StyleBag {
            bold: self.bold,
            italic: self.italic,
            selected: self.selected,
            link: match self.link {
                Some(s) => Some(s@),
                None => None,
            },
        }
    }
}

impl Clone for StyleMap {
    fn clone(&self) -> (res: StyleMap)
        ensures
            res@ == self@,
    {
        let link = match &self.link {
            Some(s) => Some(s.clone()),
            None => None,
        };
        StyleMap { bold: self.bold, italic: self.italic, selected: self.selected, link }
    }
}

impl StyleMap {
    /// A style bag with nothing set.
    pub fn new() -> (res: StyleMap)
        ensures
            res@ == StyleBag::plain(),
    {
        StyleMap { bold: false, italic: false, selected: false, link: None }
    }

    /// Whether two bags hold the same styles.
    pub fn same(&self, other: &StyleMap) -> (res: bool)
        ensures
            res == (self@ == other@),
    {
        let links = match (&self.link, &other.link) {
            (Some(a), Some(b)) => *a == *b,
            (None, None) => true,
            _ => false,
        };
        self.bold == other.bold && self.italic == other.italic && self.selected == other.selected
            && links
    }

    /// Merges `other` into this bag; where both define a key, `other` wins.
    pub fn extend(&mut self, other: &StyleMap)
        ensures
            final(self)@ == old(self)@.overlay(other@),
    {
        self.bold = self.bold || other.bold;
        self.italic = self.italic || other.italic;
        self.selected = self.selected || other.selected;
        match &other.link {
            Some(s) => {
                self.link = Some(s.clone());
            },
            None => {},
        }
    }
}


/// Mathematical view of a group's attributes: a map from keys to values.
pub type AttrMap = Map<Seq<char>, Seq<char>>;

/// A list of entries, each a key and a value.
pub type AttrEntries = Seq<(Seq<char>, Seq<char>)>;

/// The map that a list of entries stands for: an entry takes the place of
/// an earlier one with the same key.
pub open spec fn entries_map(s: AttrEntries) -> AttrMap
    decreases s.len(),
{
    if s.len() == 0 {
        Map::empty()
    } else {
        entries_map(s.drop_last()).insert(s.last().0, s.last().1)
    }
}

/// The value that `attrs` holds for `key`, if any.
pub open spec fn attr_get(attrs: AttrMap, key: Seq<char>) -> Option<Seq<char>> {
    if attrs.dom().contains(key) {
        Some(attrs[key])
    } else {
        None
    }
}

/// A key of the map that a list of entries stands for is the key of one
/// of the entries.
pub proof fn lemma_entries_key(s: AttrEntries, k: Seq<char>)
    requires
        entries_map(s).dom().contains(k),
    ensures
        exists|i: int| 0 <= i < s.len() && (#[trigger] s[i]).0 == k,
    decreases s.len(),
{
    if s.len() > 0 {
        if s.last().0 == k {
            assert(s[s.len() - 1].0 == k);
        } else {
            let t = s.drop_last();
            lemma_entries_key(t, k);
            let i = choose|i: int| 0 <= i < t.len() && (#[trigger] t[i]).0 == k;
            assert(s[i] == t[i]);
        }
    }
}

/// Entries with other keys at the end of a list do not change what the
/// list holds for `k`.
pub proof fn lemma_entries_tail(s: AttrEntries, at: int, k: Seq<char>)
    requires
        0 <= at <= s.len(),
        forall|j: int| at <= j < s.len() ==> (#[trigger] s[j]).0 != k,
    ensures
        attr_get(entries_map(s), k) == attr_get(entries_map(s.take(at)), k),
    decreases s.len() - at,
{
    if at < s.len() {
        let t = s.drop_last();
        assert(t.take(at) =~= s.take(at));
        assert forall|j: int| at <= j < t.len() implies (#[trigger] t[j]).0 != k by {
            assert(t[j] == s[j]);
        }
        lemma_entries_tail(t, at, k);
        assert(s[s.len() - 1].0 != k);
    } else {
        assert(s.take(at) =~= s);
    }
}

/// Attributes of a group: a map from keys to values, held as a list of
/// entries in which an entry takes the place of an earlier one with the
/// same key. Two sets of attributes are equal where they hold the same
/// value for every key, in whatever order the entries were made.
#[derive(Debug)]
pub struct Attrs {
    pub pairs: Vec<(String, String)>,
}

impl View for Attrs {
    type V = AttrMap;

    open spec fn view(&self) -> AttrMap {
        entries_map(self.entries())
    }
}

impl Clone for Attrs {
    fn clone(&self) -> (res: Attrs)
        ensures
            res@ == self@,
    {
        let mut pairs: Vec<(String, String)> = Vec::new();
        let mut i: usize = 0;
        while i < self.pairs.len()
            invariant
                i <= self.pairs.len(),
                pairs@.len() == i,
                forall|j: int|
                    0 <= j < i ==> pairs@[j].0@ == self.pairs@[j].0@ && pairs@[j].1@
                        == self.pairs@[j].1@,
            decreases self.pairs.len() - i,
        {
            let k = self.pairs[i].0.clone();
            let v = self.pairs[i].1.clone();
            pairs.push((k, v));
            i += 1;
        }
        let res = Attrs { pairs };
        assert(res.entries() =~= self.entries());
        res
    }
}

impl PartialEq for Attrs {
    fn eq(&self, other: &Attrs) -> (res: bool) {
        self.same(other)
    }
}

impl Eq for Attrs {

}

impl vstd::std_specs::cmp::PartialEqSpecImpl for Attrs {
    open spec fn obeys_eq_spec() -> bool {
        true
    }

    open spec fn eq_spec(&self, other: &Attrs) -> bool {
        self@ == other@
    }
}

impl Attrs {
    /// The entries in the order in which they were made.
    pub open spec fn entries(&self) -> AttrEntries {
        Seq::new(self.pairs@.len(), |i: int| (self.pairs@[i].0@, self.pairs@[i].1@))
    }

    /// The value held for `key`.
    pub fn get(&self, key: &str) -> (res: Option<&String>)
        ensures
            match res {
                Some(v) => attr_get(self@, key@) == Some(v@),
                None => attr_get(self@, key@) is None,
            },
    {
        let wanted = String::from_str(key);
        let mut i: usize = self.pairs.len();
        while i > 0
            invariant
                i <= self.pairs.len(),
                wanted@ == key@,
                forall|j: int| i <= j < self.pairs.len() ==> (#[trigger] self.entries()[j]).0 != key@,
            decreases i,
        {
            if self.pairs[i - 1].0 == wanted {
                proof {
                    let e = self.entries();
                    let t = e.take(i as int);
                    lemma_entries_tail(e, i as int, key@);
                    assert(t.last() == e[i - 1]);
                }
                return Some(&self.pairs[i - 1].1);
            }
            i = i - 1;
        }
        proof {
            let e = self.entries();
            lemma_entries_tail(e, 0, key@);
            assert(e.take(0) =~= Seq::empty());
        }
        None
    }

    /// Whether the value held for `key` is `value`.
    pub fn has(&self, key: &str, value: &str) -> (res: bool)
        ensures
            res == (attr_get(self@, key@) == Some(value@)),
    {
        let wanted = String::from_str(value);
        match self.get(key) {
            Some(v) => *v == wanted,
            None => false,
        }
    }

    /// Attributes with no entry.
    pub fn new() -> (res: Attrs)
        ensures
            res@ == Map::<Seq<char>, Seq<char>>::empty(),
    {
        let res = Attrs { pairs: Vec::new() };
        assert(res.entries() =~= Seq::empty());
        res
    }

    /// Sets the value for `key` to `value`.
    pub fn with(self, key: &str, value: &str) -> (res: Attrs)
        ensures
            res@ == self@.insert(key@, value@),
    {
        let ghost before = self.entries();
        let mut pairs = self.pairs;
        pairs.push((String::from_str(key), String::from_str(value)));
        let res = Attrs { pairs };
        assert(res.entries().drop_last() =~= before);
        assert(res.entries().last() == (key@, value@));
        res
    }

    /// Whether `other` holds, for the key of each entry of `self`, what
    /// `self` holds for it.
    fn agrees_on_keys(&self, other: &Attrs) -> (res: bool)
        ensures
            res == (forall|i: int|
                0 <= i < self.entries().len() ==> attr_get(self@, (#[trigger] self.entries()[i]).0)
                    == attr_get(other@, self.entries()[i].0)),
    {
        let mut i: usize = 0;
        while i < self.pairs.len()
            invariant
                i <= self.pairs.len(),
                forall|j: int|
                    0 <= j < i ==> attr_get(self@, (#[trigger] self.entries()[j]).0) == attr_get(
                        other@,
                        self.entries()[j].0,
                    ),
            decreases self.pairs.len() - i,
        {
            let key = self.pairs[i].0.as_str();
            assert(key@ == self.entries()[i as int].0);
            let ok = match (self.get(key), other.get(key)) {
                (Some(x), Some(y)) => *x == *y,
                (None, None) => true,
                _ => false,
            };
            if !ok {
                return false;
            }
            i = i + 1;
        }
        true
    }

    /// Whether the two hold the same value for every key.
    pub fn same(&self, other: &Attrs) -> (res: bool)
        ensures
            res == (self@ == other@),
    {
        if !self.agrees_on_keys(other) {
            return false;
        }
        if !other.agrees_on_keys(self) {
            return false;
        }
        proof {
            let a = self@;
            let b = other@;
            assert forall|k: Seq<char>|
                (#[trigger] a.dom().contains(k)) == b.dom().contains(k) && (a.dom().contains(k)
                    ==> a[k] == b[k]) by {
                if a.dom().contains(k) {
                    lemma_entries_key(self.entries(), k);
                    let i = choose|i: int|
                        0 <= i < self.entries().len() && (#[trigger] self.entries()[i]).0 == k;
                    assert(attr_get(a, self.entries()[i].0) == attr_get(b, self.entries()[i].0));
                }
                if b.dom().contains(k) {
                    lemma_entries_key(other.entries(), k);
                    let i = choose|i: int|
                        0 <= i < other.entries().len() && (#[trigger] other.entries()[i]).0 == k;
                    assert(attr_get(b, other.entries()[i].0) == attr_get(a, other.entries()[i].0));
                }
            }
            assert forall|k: Seq<char>| a.dom().contains(k) implies #[trigger] a[k] == b[k] by {
                assert(a.dom().contains(k) == b.dom().contains(k) && (a.dom().contains(k) ==> a[k]
                    == b[k]));
            }
            assert(a.dom() =~= b.dom());
            assert(a =~= b);
        }
        true
    }
}

/// Mathematical view of a run of text: its characters and the style bag
/// that all of them carry.
pub struct Text {
    pub chars: Seq<char>,
    pub styles: StyleBag,
}

/// A run of characters that share one style bag. Lengths and positions
/// count Unicode scalar values.
#[derive(Debug, PartialEq, Eq)]
pub struct DocString {
    pub text: String,
    pub styles: StyleMap,
}

impl View for DocString {
    type V = Text;

    open spec fn view(&self) -> Text {
        Text { chars: self.text@, styles: self.styles@ }
    }
}

impl Clone for DocString {
    fn clone(&self) -> (res: DocString)
        ensures
            res@ == self@,
    {
        DocString { text: self.text.clone(), styles: self.styles.clone() }
    }
}

impl DocString {
    /// An unstyled run holding the characters of `s`.
    pub fn from_str(s: &str) -> (res: DocString)
        ensures
            res@ == (Text { chars: s@, styles: StyleBag::plain() }),
    {
        DocString { text: String::from_str(s), styles: StyleMap::new() }
    }

    /// A run holding the characters of `s` under `styles`.
    pub fn from_str_styled(s: &str, styles: StyleMap) -> (res: DocString)
        ensures
            res@ == (Text { chars: s@, styles: styles@ }),
    {
        DocString { text: String::from_str(s), styles }
    }

    /// The run's characters.
    pub fn as_str(&self) -> (res: &str)
        ensures
            res@ == self@.chars,
    {
        self.text.as_str()
    }

    /// Number of Unicode scalar values in the run.
    pub fn char_len(&self) -> (res: usize)
        ensures
            res == self@.chars.len(),
    {
        self.text.as_str().unicode_len()
    }

    /// Splits the run after its first `at` characters; both halves keep
    /// the styles.
    pub fn split_at(&self, at: usize) -> (res: (DocString, DocString))
        requires
            at <= self@.chars.len(),
        ensures
            res.0@ == (Text { chars: self@.chars.take(at as int), styles: self@.styles }),
            res.1@ == (Text { chars: self@.chars.skip(at as int), styles: self@.styles }),
    {
        let s = self.text.as_str();
        let n = s.unicode_len();
        let left = String::from_str(s.substring_char(0, at));
        let right = String::from_str(s.substring_char(at, n));
        (
            DocString { text: left, styles: self.styles.clone() },
            DocString { text: right, styles: self.styles.clone() },
        )
    }

    /// Appends the characters of `other`.
    pub fn push_str(&mut self, other: &str)
        ensures
            final(self)@ == (Text {
                chars: old(self)@.chars + other@,
                styles: old(self)@.styles,
            }),
    {
        self.text.append(other);
    }

    /// Overlays `styles` on the run; where both define a key, `styles` wins.
    pub fn extend_styles(&mut self, styles: &StyleMap)
        ensures
            final(self)@ == (Text {
                chars: old(self)@.chars,
                styles: old(self)@.styles.overlay(styles@),
            }),
    {
        self.styles.extend(styles);
    }
}


/// Mathematical view of a document atom.
pub enum DocNode {
    Chars(Text),
    Group(AttrMap, Seq<DocNode>),
}

/// A document atom: a run of text, or a group with attributes and children.
#[derive(Debug, PartialEq, Eq)]
pub enum DocElement {
    DocChars(DocString),
    DocGroup(Attrs, Vec<DocElement>),
}

/// A document span: an ordered sequence of atoms.
pub type DocSpan = Vec<DocElement>;

impl DeepView for DocElement {
    type V = DocNode;

    open spec fn deep_view(&self) -> DocNode
        decreases self,
    {
        match self {
            DocElement::DocChars(t) => DocNode::Chars(t@),
            DocElement::DocGroup(a, c) => DocNode::Group(
                a@,
                Seq::new(
                    c@.len(),
                    |i: int|
                        if 0 <= i < c@.len() {
                            c@[i].deep_view()
                        } else {
                            arbitrary()
                        },
                ),
            ),
        }
    }
}


/// A group's view is its attributes' view over its children's views.
pub broadcast proof fn lemma_doc_group_view(a: Attrs, c: Vec<DocElement>)
    ensures
        #[trigger] DocElement::DocGroup(a, c).deep_view() == DocNode::Group(a@, c.deep_view()),
{
    reveal_with_fuel(<DocElement as DeepView>::deep_view, 2);
    let lhs = DocElement::DocGroup(a, c).deep_view();
    assert(lhs->Group_1 =~= c.deep_view());
}

impl Clone for DocElement {
    #[verifier::loop_isolation(false)]
    fn clone(&self) -> (res: DocElement)
        ensures
            res.deep_view() == self.deep_view(),
        decreases self,
    {
        match self {
            DocElement::DocChars(t) => DocElement::DocChars(t.clone()),
            DocElement::DocGroup(a, c) => {
                let mut out: Vec<DocElement> = Vec::new();
                let mut i: usize = 0;
                while i < c.len()
                    invariant
                        i <= c.len(),
                        out@.len() == i,
                        forall|j: int| 0 <= j < i ==> out@[j].deep_view() == c@[j].deep_view(),
                    decreases c.len() - i,
                {
                    out.push(c[i].clone());
                    i += 1;
                }
                let res = DocElement::DocGroup(a.clone(), out);
                proof {
                    lemma_doc_group_view(*a, *c);
                    lemma_doc_group_view(res->DocGroup_0, out);
                    assert(out.deep_view() =~= c.deep_view());
                }
                res
            },
        }
    }
}

/// Mathematical view of an add-operation atom.
pub enum AddNode {
    Skip(nat),
    Chars(Text),
    Group(AttrMap, Seq<AddNode>),
    WithGroup(Seq<AddNode>),
    Styles(nat, StyleBag),
}

/// An atom of an add-operation.
#[derive(Debug, PartialEq, Eq)]
pub enum AddElement {
    /// Advance past this many units of input, unchanged.
    AddSkip(usize),
    /// Insert a run of text.
    AddChars(DocString),
    /// Open a new group around what the inner span describes.
    AddGroup(Attrs, Vec<AddElement>),
    /// Descend into the next group and edit its children.
    AddWithGroup(Vec<AddElement>),
    /// Overlay styles on this many characters.
    AddStyles(usize, StyleMap),
}

/// An add-operation span.
pub type AddSpan = Vec<AddElement>;

impl DeepView for AddElement {
    type V = AddNode;

    open spec fn deep_view(&self) -> AddNode
        decreases self,
    {
        match self {
            AddElement::AddSkip(n) => AddNode::Skip(*n as nat),
            AddElement::AddChars(t) => AddNode::Chars(t@),
            AddElement::AddGroup(a, c) => AddNode::Group(
                a@,
                Seq::new(
                    c@.len(),
                    |i: int|
                        if 0 <= i < c@.len() {
                            c@[i].deep_view()
                        } else {
                            arbitrary()
                        },
                ),
            ),
            AddElement::AddWithGroup(c) => AddNode::WithGroup(
                Seq::new(
                    c@.len(),
                    |i: int|
                        if 0 <= i < c@.len() {
                            c@[i].deep_view()
                        } else {
                            arbitrary()
                        },
                ),
            ),
            AddElement::AddStyles(n, s) => AddNode::Styles(*n as nat, s@),
        }
    }
}

/// The view of `AddGroup` is built from its fields' views.
pub broadcast proof fn lemma_add_group_view(a: Attrs, c: Vec<AddElement>)
    ensures
        #[trigger] AddElement::AddGroup(a, c).deep_view() == AddNode::Group(a@, c.deep_view()),
{
    reveal_with_fuel(<AddElement as DeepView>::deep_view, 2);
    let lhs = AddElement::AddGroup(a, c).deep_view();
    assert(lhs->Group_1 =~= c.deep_view());
}

/// The view of `AddWithGroup` is built from its inner span's view.
pub broadcast proof fn lemma_add_with_group_view(c: Vec<AddElement>)
    ensures
        #[trigger] AddElement::AddWithGroup(c).deep_view() == AddNode::WithGroup(c.deep_view()),
{
    reveal_with_fuel(<AddElement as DeepView>::deep_view, 2);
    let lhs = AddElement::AddWithGroup(c).deep_view();
    assert(lhs->WithGroup_0 =~= c.deep_view());
}

impl Clone for AddElement {
    #[verifier::loop_isolation(false)]
    fn clone(&self) -> (res: AddElement)
        ensures
            res.deep_view() == self.deep_view(),
        decreases self,
    {
        match self {
            AddElement::AddSkip(n) => AddElement::AddSkip(*n),
            AddElement::AddChars(t) => AddElement::AddChars(t.clone()),
            AddElement::AddStyles(n, s) => AddElement::AddStyles(*n, s.clone()),
            AddElement::AddGroup(a, c) => {
                let mut out: Vec<AddElement> = Vec::new();
                let mut i: usize = 0;
                while i < c.len()
                    invariant
                        i <= c.len(),
                        out@.len() == i,
                        forall|j: int| 0 <= j < i ==> out@[j].deep_view() == c@[j].deep_view(),
                    decreases c.len() - i,
                {
                    out.push(c[i].clone());
                    i += 1;
                }
                let res = AddElement::AddGroup(a.clone(), out);
                proof {
                    lemma_add_group_view(*a, *c);
                    lemma_add_group_view(res->AddGroup_0, out);
                    assert(out.deep_view() =~= c.deep_view());
                }
                res
            },
            AddElement::AddWithGroup(c) => {
                let mut out: Vec<AddElement> = Vec::new();
                let mut i: usize = 0;
                while i < c.len()
                    invariant
                        i <= c.len(),
                        out@.len() == i,
                        forall|j: int| 0 <= j < i ==> out@[j].deep_view() == c@[j].deep_view(),
                    decreases c.len() - i,
                {
                    out.push(c[i].clone());
                    i += 1;
                }
                proof {
                    lemma_add_with_group_view(*c);
                    lemma_add_with_group_view(out);
                    assert(out.deep_view() =~= c.deep_view());
                }
                AddElement::AddWithGroup(out)
            },
        }
    }
}

/// Mathematical view of a delete-operation atom.
pub enum DelNode {
    Skip(nat),
    Chars(nat),
    WithGroup(Seq<DelNode>),
    Group(Seq<DelNode>),
}

/// An atom of a delete-operation.
#[derive(Debug, PartialEq, Eq)]
pub enum DelElement {
    /// Advance past this many units, unchanged.
    DelSkip(usize),
    /// Remove this many characters.
    DelChars(usize),
    /// Descend into the next group and edit its children.
    DelWithGroup(Vec<DelElement>),
    /// Remove the next group, keeping its edited children in its place.
    DelGroup(Vec<DelElement>),
}

/// A delete-operation span.
pub type DelSpan = Vec<DelElement>;

/// An operation: a delete span, applied first, and an add span.
pub type Op = (DelSpan, AddSpan);

impl DeepView for DelElement {
    type V = DelNode;

    open spec fn deep_view(&self) -> DelNode
        decreases self,
    {
        match self {
            DelElement::DelSkip(n) => DelNode::Skip(*n as nat),
            DelElement::DelChars(n) => DelNode::Chars(*n as nat),
            DelElement::DelWithGroup(c) => DelNode::WithGroup(
                Seq::new(
                    c@.len(),
                    |i: int|
                        if 0 <= i < c@.len() {
                            c@[i].deep_view()
                        } else {
                            arbitrary()
                        },
                ),
            ),
            DelElement::DelGroup(c) => DelNode::Group(
                Seq::new(
                    c@.len(),
                    |i: int|
                        if 0 <= i < c@.len() {
                            c@[i].deep_view()
                        } else {
                            arbitrary()
                        },
                ),
            ),
        }
    }
}

/// The view of `DelWithGroup` is built from its inner span's view.
pub broadcast proof fn lemma_del_with_group_view(c: Vec<DelElement>)
    ensures
        #[trigger] DelElement::DelWithGroup(c).deep_view() == DelNode::WithGroup(c.deep_view()),
{
    reveal_with_fuel(<DelElement as DeepView>::deep_view, 2);
    let lhs = DelElement::DelWithGroup(c).deep_view();
    assert(lhs->WithGroup_0 =~= c.deep_view());
}

/// The view of `DelGroup` is built from its inner span's view.
pub broadcast proof fn lemma_del_group_view(c: Vec<DelElement>)
    ensures
        #[trigger] DelElement::DelGroup(c).deep_view() == DelNode::Group(c.deep_view()),
{
    reveal_with_fuel(<DelElement as DeepView>::deep_view, 2);
    let lhs = DelElement::DelGroup(c).deep_view();
    assert(lhs->Group_0 =~= c.deep_view());
}

impl Clone for DelElement {
    #[verifier::loop_isolation(false)]
    fn clone(&self) -> (res: DelElement)
        ensures
            res.deep_view() == self.deep_view(),
        decreases self,
    {
        match self {
            DelElement::DelSkip(n) => DelElement::DelSkip(*n),
            DelElement::DelChars(n) => DelElement::DelChars(*n),
            DelElement::DelWithGroup(c) => {
                let mut out: Vec<DelElement> = Vec::new();
                let mut i: usize = 0;
                while i < c.len()
                    invariant
                        i <= c.len(),
                        out@.len() == i,
                        forall|j: int| 0 <= j < i ==> out@[j].deep_view() == c@[j].deep_view(),
                    decreases c.len() - i,
                {
                    out.push(c[i].clone());
                    i += 1;
                }
                proof {
                    lemma_del_with_group_view(*c);
                    lemma_del_with_group_view(out);
                    assert(out.deep_view() =~= c.deep_view());
                }
                DelElement::DelWithGroup(out)
            },
            DelElement::DelGroup(c) => {
                let mut out: Vec<DelElement> = Vec::new();
                let mut i: usize = 0;
                while i < c.len()
                    invariant
                        i <= c.len(),
                        out@.len() == i,
                        forall|j: int| 0 <= j < i ==> out@[j].deep_view() == c@[j].deep_view(),
                    decreases c.len() - i,
                {
                    out.push(c[i].clone());
                    i += 1;
                }
                proof {
                    lemma_del_group_view(*c);
                    lemma_del_group_view(out);
                    assert(out.deep_view() =~= c.deep_view());
                }
                DelElement::DelGroup(out)
            },
        }
    }
}

/// Mathematical view of a cursor atom.
pub enum CurNode {
    Skip(nat),
    WithGroup(Seq<CurNode>),
    Group,
    Char,
}

/// An atom of a cursor path, which names a place in a document.
#[derive(Debug, PartialEq, Eq)]
pub enum CurElement {
    /// Advance past this many units.
    CurSkip(usize),
    /// Descend into the next group; the place lies inside it.
    CurWithGroup(Vec<CurElement>),
    /// The place is the group that comes next.
    CurGroup,
    /// The place is the character that comes next.
    CurChar,
}

/// A cursor path.
pub type CurSpan = Vec<CurElement>;

impl DeepView for CurElement {
    type V = CurNode;

    open spec fn deep_view(&self) -> CurNode
        decreases self,
    {
        match self {
            CurElement::CurSkip(n) => CurNode::Skip(*n as nat),
            CurElement::CurWithGroup(c) => CurNode::WithGroup(
                Seq::new(
                    c@.len(),
                    |i: int|
                        if 0 <= i < c@.len() {
                            c@[i].deep_view()
                        } else {
                            arbitrary()
                        },
                ),
            ),
            CurElement::CurGroup => CurNode::Group,
            CurElement::CurChar => CurNode::Char,
        }
    }
}

/// The view of `CurWithGroup` is built from its inner span's view.
pub broadcast proof fn lemma_cur_with_group_view(c: Vec<CurElement>)
    ensures
        #[trigger] CurElement::CurWithGroup(c).deep_view() == CurNode::WithGroup(c.deep_view()),
{
    reveal_with_fuel(<CurElement as DeepView>::deep_view, 2);
    let lhs = CurElement::CurWithGroup(c).deep_view();
    assert(lhs->WithGroup_0 =~= c.deep_view());
}

impl Clone for CurElement {
    #[verifier::loop_isolation(false)]
    fn clone(&self) -> (res: CurElement)
        ensures
            res.deep_view() == self.deep_view(),
        decreases self,
    {
        match self {
            CurElement::CurSkip(n) => CurElement::CurSkip(*n),
            CurElement::CurGroup => CurElement::CurGroup,
            CurElement::CurChar => CurElement::CurChar,
            CurElement::CurWithGroup(c) => {
                let mut out: Vec<CurElement> = Vec::new();
                let mut i: usize = 0;
                while i < c.len()
                    invariant
                        i <= c.len(),
                        out@.len() == i,
                        forall|j: int| 0 <= j < i ==> out@[j].deep_view() == c@[j].deep_view(),
                    decreases c.len() - i,
                {
                    out.push(c[i].clone());
                    i += 1;
                }
                proof {
                    lemma_cur_with_group_view(*c);
                    lemma_cur_with_group_view(out);
                    assert(out.deep_view() =~= c.deep_view());
                }
                CurElement::CurWithGroup(out)
            },
        }
    }
}

/// The lemmas that unfold the view of each group-carrying atom.
pub broadcast group group_views {
    lemma_doc_group_view,
    lemma_add_group_view,
    lemma_add_with_group_view,
    lemma_del_with_group_view,
    lemma_del_group_view,
    lemma_cur_with_group_view,
}

} // verus!
