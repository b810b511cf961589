//! The data model shared by the scanner, the document store and the renderer:
//! block headers, block content items, the error type, and small string
//! utilities that the rest of the crate builds on.

use vstd::prelude::*;

verus! {

/// Mathematical value of a [`BlockInfo`]: both fields as character sequences.
#[verifier::ext_equal]
pub ghost struct BlockInfoView {
    pub name: Seq<char>,
    pub template_name: Seq<char>,
}

/// Mathematical value of a [`BlockContent`] item.
#[verifier::ext_equal]
pub ghost enum BlockContentView {
    Markdown(Seq<char>),
    Code(Seq<char>),
    Link(Seq<char>),
    Embed(Seq<char>),
}

/// Mathematical value of a [`Block`]: its header and its content items in
/// document order.
#[verifier::ext_equal]
pub ghost struct BlockView {
    pub info: BlockInfoView,
    pub content: Seq<BlockContentView>,
}

/// The header of a documentation block: its unique name and the name of the
/// template that renders it.
#[derive(Debug)]
pub struct BlockInfo {
    pub name: String,
    pub template_name: String,
}

/// One content item of a block. The order of items inside a block is
/// meaningful: rendered fragments are concatenated in document order.
#[derive(Debug)]
pub enum BlockContent {
    /// Free text handed to the markdown collaborator.
    Markdown(String),
    /// A code fragment, wrapped in a fenced code block when rendered.
    Code(String),
    /// A reference rendered as a hyperlink to the named block.
    Link(String),
    /// A reference whose target block is rendered and spliced inline.
    Embed(String),
}

/// A named documentation block: a header and an ordered content sequence.
#[derive(Debug)]
pub struct Block {
    pub info: BlockInfo,
    pub content: Vec<BlockContent>,
}

impl View for BlockInfo {
    type V = BlockInfoView;

    open spec fn view(&self) -> BlockInfoView {
        BlockInfoView { name: self.name@, template_name: self.template_name@ }
    }
}

impl View for BlockContent {
    type V = BlockContentView;

    open spec fn view(&self) -> BlockContentView {
        match self {
            BlockContent::Markdown(s) => BlockContentView::Markdown(s@),
            BlockContent::Code(s) => BlockContentView::Code(s@),
            BlockContent::Link(s) => BlockContentView::Link(s@),
            BlockContent::Embed(s) => BlockContentView::Embed(s@),
        }
    }
}

impl View for Block {
    type V = BlockView;

    open spec fn view(&self) -> BlockView {
        BlockView { info: self.info@, content: self.content@.map_values(|c: BlockContent| c@) }
    }
}

impl DeepView for Block {
    type V = BlockView;

    open spec fn deep_view(&self) -> BlockView {
        self@
    }
}

impl Clone for BlockInfo {
    fn clone(&self) -> (r: Self)
        ensures
            r@ == self@,
    {
        BlockInfo { name: self.name.clone(), template_name: self.template_name.clone() }
    }
}

impl Clone for BlockContent {
    fn clone(&self) -> (r: Self)
        ensures
            r@ == self@,
    {
        match self {
            BlockContent::Markdown(s) => BlockContent::Markdown(s.clone()),
            BlockContent::Code(s) => BlockContent::Code(s.clone()),
            BlockContent::Link(s) => BlockContent::Link(s.clone()),
            BlockContent::Embed(s) => BlockContent::Embed(s.clone()),
        }
    }
}

impl Clone for Block {
    fn clone(&self) -> (r: Self)
        ensures
            r@ == self@,
    {
        let mut content: Vec<BlockContent> = Vec::new();
        let mut i: usize = 0;
        while i < self.content.len()
            invariant
                i <= self.content.len(),
                content@.len() == i as int,
                forall|j: int| 0 <= j < i ==> content@[j]@ == self.content@[j]@,
            decreases self.content.len() - i,
        {
            content.push(self.content[i].clone());
            i += 1;
        }
        proof {
            assert(content@.map_values(|c: BlockContent| c@) =~= self.content@.map_values(
                |c: BlockContent| c@,
            ));
        }
        Block { info: self.info.clone(), content }
    }
}

impl PartialEq for BlockInfo {
    fn eq(&self, other: &Self) -> (r: bool) {
        self.name == other.name && self.template_name == other.template_name
    }
}

impl vstd::std_specs::cmp::PartialEqSpecImpl for BlockInfo {
    open spec fn obeys_eq_spec() -> bool {
        true
    }

    open spec fn eq_spec(&self, other: &Self) -> bool {
        self@ == other@
    }
}

impl PartialEq for BlockContent {
    fn eq(&self, other: &Self) -> (r: bool) {
        match (self, other) {
            (BlockContent::Markdown(a), BlockContent::Markdown(b)) => *a == *b,
            (BlockContent::Code(a), BlockContent::Code(b)) => *a == *b,
            (BlockContent::Link(a), BlockContent::Link(b)) => *a == *b,
            (BlockContent::Embed(a), BlockContent::Embed(b)) => *a == *b,
            _ => false,
        }
    }
}

impl vstd::std_specs::cmp::PartialEqSpecImpl for BlockContent {
    open spec fn obeys_eq_spec() -> bool {
        true
    }

    open spec fn eq_spec(&self, other: &Self) -> bool {
        self@ == other@
    }
}

impl PartialEq for Block {
    fn eq(&self, other: &Self) -> (r: bool) {
        if !(self.info == other.info) {
            return false;
        }
        if self.content.len() != other.content.len() {
            proof {
                assert(self@.content.len() != other@.content.len());
            }
            return false;
        }
        let mut i: usize = 0;
        while i < self.content.len()
            invariant
                i <= self.content.len(),
                self.content@.len() == other.content@.len(),
                forall|j: int| 0 <= j < i ==> self.content@[j]@ == other.content@[j]@,
            decreases self.content.len() - i,
        {
            if !(self.content[i] == other.content[i]) {
                proof {
                    assert(self@.content[i as int] != other@.content[i as int]);
                }
                return false;
            }
            i += 1;
        }
        proof {
            assert(self@.content =~= other@.content);
        }
        true
    }
}

impl vstd::std_specs::cmp::PartialEqSpecImpl for Block {
    open spec fn obeys_eq_spec() -> bool {
        true
    }

    open spec fn eq_spec(&self, other: &Self) -> bool {
        self@ == other@
    }
}

/// Every way a parse, lookup or render step can fail, each carrying a
/// human-readable description.
#[derive(Debug)]
pub enum AnubisError {
    /// A block in a scanned file is malformed.
    ParsingError(String),
    /// No language binding exists for a file or block.
    ConfigError(String),
    /// Rendering a block required rendering the same block again.
    RecursiveTemplateError(String),
    /// A requested page does not exist.
    PageNotFoundError(String),
    /// A block name is absent from the block table.
    BlockNotFoundError(String),
    /// A block exists but has no entry in the reference graph.
    ConnectionsNotFound(String),
    /// Binding template variables failed.
    ContextError(String),
}

impl AnubisError {
    /// The description carried by any variant.
    pub open spec fn spec_description(&self) -> Seq<char> {
        match self {
            AnubisError::ParsingError(d) => d@,
            AnubisError::ConfigError(d) => d@,
            AnubisError::RecursiveTemplateError(d) => d@,
            AnubisError::PageNotFoundError(d) => d@,
            AnubisError::BlockNotFoundError(d) => d@,
            AnubisError::ConnectionsNotFound(d) => d@,
            AnubisError::ContextError(d) => d@,
        }
    }

    /// Returns the description carried by this error.
    pub fn description(&self) -> (r: &str)
        ensures
            r@ == self.spec_description(),
    {
        match self {
            AnubisError::ParsingError(d) => d.as_str(),
            AnubisError::ConfigError(d) => d.as_str(),
            AnubisError::RecursiveTemplateError(d) => d.as_str(),
            AnubisError::PageNotFoundError(d) => d.as_str(),
            AnubisError::BlockNotFoundError(d) => d.as_str(),
            AnubisError::ConnectionsNotFound(d) => d.as_str(),
            AnubisError::ContextError(d) => d.as_str(),
        }
    }
}

/// Whether two string slices hold the same characters.
pub fn str_eq(a: &str, b: &str) -> (r: bool)
    ensures
        r == (a@ == b@),
{
    let n = a.unicode_len();
    if n != b.unicode_len() {
        return false;
    }
    let mut i: usize = 0;
    while i < n
        invariant
            n == a@.len(),
            n == b@.len(),
            i <= n,
            forall|j: int| 0 <= j < i ==> a@[j] == b@[j],
        decreases n - i,
    {
        if a.get_char(i) != b.get_char(i) {
            return false;
        }
        i += 1;
    }
    proof {
        assert(a@ =~= b@);
    }
    true
}

/// The last index at which `c` occurs in `s`, if any.
pub open spec fn spec_rfind(s: Seq<char>, c: char) -> Option<int>
    decreases s.len(),
{
    if s.len() == 0 {
        None
    } else if s.last() == c {
        Some(s.len() - 1)
    } else {
        spec_rfind(s.drop_last(), c)
    }
}

/// The extension of a file path: the part of the file name (the text after
/// the last `/`) that follows its last `.`. A name without a dot is returned
/// whole; a path with an empty file name has no extension, and neither do the
/// names `.` and `..`.
pub open spec fn spec_file_extension(s: Seq<char>) -> Option<Seq<char>> {
    let name = match spec_rfind(s, '/') {
        Some(k) => s.skip(k + 1),
        None => s,
    };
    if name.len() == 0 || name == seq!['.'] || name == seq!['.', '.'] {
        None
    } else {
        match spec_rfind(name, '.') {
            Some(k) => Some(name.skip(k + 1)),
            None => Some(name),
        }
    }
}

proof fn lemma_rfind(s: Seq<char>, c: char)
    ensures
        match spec_rfind(s, c) {
            Some(k) => 0 <= k < s.len() && s[k] == c && (forall|j: int| k < j < s.len() ==> s[j] != c),
            None => forall|j: int| 0 <= j < s.len() ==> s[j] != c,
        },
    decreases s.len(),
{
    if s.len() == 0 {
    } else if s.last() == c {
        assert(s[s.len() - 1] == c);
    } else {
        lemma_rfind(s.drop_last(), c);
        assert forall|j: int| 0 <= j < s.len() - 1 implies s.drop_last()[j] == s[j] by {}
        match spec_rfind(s.drop_last(), c) {
            Some(k) => {
                assert(s.drop_last()[k] == c);
                assert forall|j: int| k < j < s.len() implies s[j] != c by {
                    if j == s.len() - 1 {
                        assert(s[j] == s.last());
                    } else {
                        assert(s.drop_last()[j] != c);
                    }
                }
            },
            None => {
                assert forall|j: int| 0 <= j < s.len() implies s[j] != c by {
                    if j == s.len() - 1 {
                        assert(s[j] == s.last());
                    } else {
                        assert(s.drop_last()[j] != c);
                    }
                }
            },
        }
    }
}

/// Returns the file extension of a path, per [`spec_file_extension`].
pub fn extract_file_extenstion(file: &str) -> (r: Option<&str>)
    ensures
        match r {
            Some(e) => spec_file_extension(file@) == Some(e@),
            None => spec_file_extension(file@) is None,
        },
{
    let n = file.unicode_len();
    let mut i: usize = 0;
    let mut last_slash: Option<usize> = None;
    let mut last_dot: Option<usize> = None;
    while i < n
        invariant
            i <= n,
            n == file@.len(),
            match last_slash {
                Some(k) => k < i && spec_rfind(file@.take(i as int), '/') == Some(k as int),
                None => spec_rfind(file@.take(i as int), '/') is None,
            },
            match last_dot {
                Some(k) => k < i && spec_rfind(file@.take(i as int), '.') == Some(k as int),
                None => spec_rfind(file@.take(i as int), '.') is None,
            },
        decreases n - i,
    {
        let c = file.get_char(i);
        proof {
            assert(file@.take(i + 1).drop_last() =~= file@.take(i as int));
            assert(file@.take(i + 1).last() == file@[i as int]);
        }
        if c == '/' {
            last_slash = Some(i);
        }
        if c == '.' {
            last_dot = Some(i);
        }
        i += 1;
    }
    proof {
        assert(file@.take(n as int) =~= file@);
    }
    let name_start: usize = match last_slash {
        Some(k) => k + 1,
        None => 0,
    };
    if name_start == n {
        return None;
    }
    if n - name_start == 1 && file.get_char(name_start) == '.' {
        proof {
            assert(file@.skip(name_start as int) =~= seq!['.']);
        }
        return None;
    }
    if n - name_start == 2 && file.get_char(name_start) == '.' && file.get_char(name_start + 1)
        == '.' {
        proof {
            assert(file@.skip(name_start as int) =~= seq!['.', '.']);
        }
        return None;
    }
    proof {
        lemma_name_skip(file@, name_start as int);
        let name = file@.skip(name_start as int);
        if name.len() == 1 {
            assert(name[0] == file@[name_start as int]);
            assert(name != seq!['.']);
        }
        if name.len() == 2 {
            assert(name[0] == file@[name_start as int]);
            assert(name[1] == file@[name_start + 1]);
            assert(name != seq!['.', '.']);
        }
    }
    let ext_start: usize = match last_dot {
        Some(k) => {
            if k >= name_start {
                k + 1
            } else {
                name_start
            }
        },
        None => name_start,
    };
    proof {
        lemma_rfind_skip(file@, name_start as int, '.');
        lemma_rfind(file@, '.');
        lemma_rfind(file@, '/');
    }
    Some(file.substring_char(ext_start, n))
}

/// Relates `spec_rfind` on a suffix to occurrences in the whole sequence.
proof fn lemma_rfind_skip(s: Seq<char>, from: int, c: char)
    requires
        0 <= from <= s.len(),
    ensures
        match spec_rfind(s.skip(from), c) {
            Some(k) => 0 <= k && from + k < s.len() && s[from + k] == c && (forall|j: int|
                from + k < j < s.len() ==> s[j] != c),
            None => forall|j: int| from <= j < s.len() ==> s[j] != c,
        },
{
    lemma_rfind(s.skip(from), c);
    assert forall|j: int| from <= j < s.len() implies s[j] == s.skip(from)[j - from] by {}
}

/// The file-name suffix of `s` starting at `from` is `s.skip(from)`.
proof fn lemma_name_skip(s: Seq<char>, from: int)
    requires
        0 <= from <= s.len(),
    ensures
        s.skip(from) =~= s.subrange(from, s.len() as int),
{
}

/// Whether a string is among a vector's elements.
pub fn contains_string(v: &Vec<String>, s: &str) -> (r: bool)
    ensures
        r == v.deep_view().contains(s@),
{
    let mut i: usize = 0;
    while i < v.len()
        invariant
            i <= v@.len(),
            forall|j: int| 0 <= j < i ==> v.deep_view()[j] != s@,
        decreases v@.len() - i,
    {
        if str_eq(v[i].as_str(), s) {
            assert(v.deep_view()[i as int] == s@);
            return true;
        }
        i += 1;
    }
    false
}

/// Copies a vector of strings.
pub fn clone_strings(v: &Vec<String>) -> (r: Vec<String>)
    ensures
        r.deep_view() == v.deep_view(),
{
    let mut r: Vec<String> = Vec::new();
    let mut i: usize = 0;
    while i < v.len()
        invariant
            i <= v@.len(),
            r@.len() == i as int,
            forall|j: int| 0 <= j < i ==> r.deep_view()[j] == v.deep_view()[j],
        decreases v@.len() - i,
    {
        r.push(v[i].clone());
        i += 1;
    }
    proof {
        assert(r.deep_view() =~= v.deep_view());
    }
    r
}

} // verus!
