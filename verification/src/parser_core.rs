//! The block scanner. A single pass over a file's text recognises
//! documentation blocks against the delimiters of the file's language:
//!
//! - `header := '[' name '|' template_name ']'`, both parts trimmed;
//! - `link := '{' run without braces '}'`;
//! - `embed := '{{' text '}}'`;
//! - `code := multiline_end, text, multiline_start` (a code fence lives
//!   outside the surrounding comment, so it opens at the comment's *closing*
//!   token and closes where the comment reopens);
//! - `markdown := text up to the next block marker, multiline end or '{'`;
//! - `block := block marker, header, one or more content items, block marker`.
//!
//! Text between blocks is discarded, but a block marker that does not open a
//! well-formed block aborts the file's scan. Every function is specified
//! against a mathematical version of this grammar over `Seq<char>`.

use vstd::prelude::*;

use crate::common::AnubisError;
use crate::common::Block;
use crate::common::BlockContent;
use crate::common::BlockContentView;
use crate::common::BlockInfo;
use crate::common::BlockInfoView;
use crate::common::BlockView;
use crate::config::LanguageConfig;
use crate::config::LanguageConfigView;

verus! {

/// The characters the grammar skips as whitespace.
pub open spec fn is_space(c: char) -> bool {
    c == ' ' || c == '\t' || c == '\n' || c == '\r'
}

/// `pat` occurs in `s` starting at position `i`.
pub open spec fn prefix_at(s: Seq<char>, i: int, pat: Seq<char>) -> bool {
    0 <= i && i + pat.len() <= s.len() && s.subrange(i, i + pat.len()) == pat
}

/// The first position at or after `i` where `pat` occurs in `s`.
pub open spec fn spec_find(s: Seq<char>, i: int, pat: Seq<char>) -> Option<int>
    decreases s.len() - i
        when 0 <= i <= s.len() && pat.len() > 0
{
    if i + pat.len() > s.len() {
        None
    } else if prefix_at(s, i, pat) {
        Some(i)
    } else {
        spec_find(s, i + 1, pat)
    }
}

/// What `spec_find` returns: the first occurrence, or a guarantee of none.
pub proof fn lemma_find(s: Seq<char>, i: int, pat: Seq<char>)
    requires
        0 <= i <= s.len(),
        pat.len() > 0,
    ensures
        match spec_find(s, i, pat) {
            Some(j) => i <= j && j + pat.len() <= s.len() && prefix_at(s, j, pat) && (forall|k: int|
                i <= k < j ==> !prefix_at(s, k, pat)),
            None => forall|k: int| i <= k ==> !prefix_at(s, k, pat),
        },
    decreases s.len() - i,
{
    if i + pat.len() > s.len() {
        assert forall|k: int| i <= k implies !prefix_at(s, k, pat) by {}
    } else if prefix_at(s, i, pat) {
    } else {
        lemma_find(s, i + 1, pat);
    }
}

/// The end of the whitespace run that starts at `i`.
pub open spec fn ws_end(s: Seq<char>, i: int) -> int
    decreases s.len() - i
        when 0 <= i <= s.len()
{
    if i < s.len() && is_space(s[i]) {
        ws_end(s, i + 1)
    } else {
        i
    }
}

/// `ws_end` skips exactly the whitespace run that starts at `i`.
pub proof fn lemma_ws_end(s: Seq<char>, i: int)
    requires
        0 <= i <= s.len(),
    ensures
        i <= ws_end(s, i) <= s.len(),
        forall|k: int| i <= k < ws_end(s, i) ==> is_space(s[k]),
        ws_end(s, i) == s.len() || !is_space(s[ws_end(s, i)]),
    decreases s.len() - i,
{
    if i < s.len() && is_space(s[i]) {
        lemma_ws_end(s, i + 1);
    }
}

/// Whether `pat` occurs in `text` at character position `pos`.
pub fn match_at(text: &str, pos: usize, pat: &str) -> (r: bool)
    requires
        pos <= text@.len(),
    ensures
        r == prefix_at(text@, pos as int, pat@),
{
    let n = text.unicode_len();
    let m = pat.unicode_len();
    if m > n - pos {
        return false;
    }
    let mut k: usize = 0;
    while k < m
        invariant
            n == text@.len(),
            m == pat@.len(),
            pos + m <= n,
            k <= m,
            forall|j: int| 0 <= j < k ==> text@[pos + j] == pat@[j],
        decreases m - k,
    {
        if text.get_char(pos + k) != pat.get_char(k) {
            assert(text@.subrange(pos as int, pos + m) != pat@) by {
                assert(text@.subrange(pos as int, pos + m)[k as int] != pat@[k as int]);
            }
            return false;
        }
        k += 1;
    }
    proof {
        assert(text@.subrange(pos as int, pos + m) =~= pat@);
    }
    true
}

/// Finds the first occurrence of `pat` in `text` at or after `pos`.
pub fn find(text: &str, pos: usize, pat: &str) -> (r: Option<usize>)
    requires
        pos <= text@.len(),
        pat@.len() > 0,
    ensures
        match r {
            Some(j) => spec_find(text@, pos as int, pat@) == Some(j as int),
            None => spec_find(text@, pos as int, pat@) is None,
        },
{
    let n = text.unicode_len();
    let m = pat.unicode_len();
    if m > n - pos {
        return None;
    }
    let mut i: usize = pos;
    while i <= n - m
        invariant
            n == text@.len(),
            m == pat@.len(),
            0 < m <= n,
            pos <= i,
            i <= n - m + 1,
            spec_find(text@, pos as int, pat@) == spec_find(text@, i as int, pat@),
        decreases n - i,
    {
        if match_at(text, i, pat) {
            return Some(i);
        }
        i += 1;
    }
    None
}

/// Skips the whitespace run that starts at `pos`.
pub fn ws(text: &str, pos: usize) -> (r: usize)
    requires
        pos <= text@.len(),
    ensures
        r as int == ws_end(text@, pos as int),
        pos <= r <= text@.len(),
{
    let n = text.unicode_len();
    let mut i: usize = pos;
    loop
        invariant
            n == text@.len(),
            pos <= i <= n,
            ws_end(text@, pos as int) == ws_end(text@, i as int),
        decreases n - i,
    {
        if i >= n {
            return i;
        }
        let c = text.get_char(i);
        if !(c == ' ' || c == '\t' || c == '\n' || c == '\r') {
            return i;
        }
        i += 1;
    }
}

/// `s` with leading whitespace dropped.
pub open spec fn spec_trim_start(s: Seq<char>) -> Seq<char>
    decreases s.len(),
{
    if s.len() > 0 && is_space(s[0]) {
        spec_trim_start(s.drop_first())
    } else {
        s
    }
}

/// `s` with trailing whitespace dropped.
pub open spec fn spec_trim_end(s: Seq<char>) -> Seq<char>
    decreases s.len(),
{
    if s.len() > 0 && is_space(s.last()) {
        spec_trim_end(s.drop_last())
    } else {
        s
    }
}

/// `s` with leading and trailing whitespace dropped.
pub open spec fn spec_trim(s: Seq<char>) -> Seq<char> {
    spec_trim_end(spec_trim_start(s))
}

/// Dropping a whitespace run from the front is `spec_trim_start`.
proof fn lemma_trim_start_range(s: Seq<char>, a: int, a2: int, b: int)
    requires
        0 <= a <= a2 <= b <= s.len(),
        forall|t: int| a <= t < a2 ==> is_space(s[t]),
        a2 == b || !is_space(s[a2]),
    ensures
        spec_trim_start(s.subrange(a, b)) == s.subrange(a2, b),
    decreases a2 - a,
{
    if a == a2 {
        if a < b {
            assert(s.subrange(a, b)[0] == s[a]);
        }
    } else {
        assert(s.subrange(a, b)[0] == s[a]);
        assert(s.subrange(a, b).drop_first() =~= s.subrange(a + 1, b));
        lemma_trim_start_range(s, a + 1, a2, b);
    }
}

/// Dropping a whitespace run from the back is `spec_trim_end`.
proof fn lemma_trim_end_range(s: Seq<char>, a: int, b2: int, b: int)
    requires
        0 <= a <= b2 <= b <= s.len(),
        forall|t: int| b2 <= t < b ==> is_space(s[t]),
        b2 == a || !is_space(s[b2 - 1]),
    ensures
        spec_trim_end(s.subrange(a, b)) == s.subrange(a, b2),
    decreases b - b2,
{
    if b2 == b {
        if a < b {
            assert(s.subrange(a, b).last() == s[b - 1]);
        }
    } else {
        assert(s.subrange(a, b).last() == s[b - 1]);
        assert(s.subrange(a, b).drop_last() =~= s.subrange(a, b - 1));
        lemma_trim_end_range(s, a, b2, b - 1);
    }
}

/// Returns the characters of `text` between `a` and `b`, trimmed of leading
/// and trailing whitespace.
pub fn extract_trimmed(text: &str, a: usize, b: usize) -> (r: String)
    requires
        a <= b <= text@.len(),
    ensures
        r@ == spec_trim(text@.subrange(a as int, b as int)),
{
    let mut a2: usize = a;
    loop
        invariant
            a <= a2 <= b <= text@.len(),
            forall|t: int| a <= t < a2 ==> is_space(text@[t]),
        ensures
            a <= a2 <= b,
            forall|t: int| a <= t < a2 ==> is_space(text@[t]),
            a2 == b || !is_space(text@[a2 as int]),
        decreases b - a2,
    {
        if a2 >= b {
            break ;
        }
        let c = text.get_char(a2);
        if !(c == ' ' || c == '\t' || c == '\n' || c == '\r') {
            break ;
        }
        a2 += 1;
    }
    let mut b2: usize = b;
    loop
        invariant
            a2 <= b2 <= b <= text@.len(),
            forall|t: int| b2 <= t < b ==> is_space(text@[t]),
        ensures
            a2 <= b2 <= b,
            forall|t: int| b2 <= t < b ==> is_space(text@[t]),
            b2 == a2 || !is_space(text@[b2 - 1]),
        decreases b2 - a2,
    {
        if b2 <= a2 {
            break ;
        }
        let c = text.get_char(b2 - 1);
        if !(c == ' ' || c == '\t' || c == '\n' || c == '\r') {
            break ;
        }
        b2 -= 1;
    }
    proof {
        lemma_trim_start_range(text@, a as int, a2 as int, b as int);
        lemma_trim_end_range(text@, a2 as int, b2 as int, b as int);
    }
    text.substring_char(a2, b2).to_owned()
}

/// The header grammar at position `i`: `'[' name '|' template_name ']'`,
/// both parts trimmed of whitespace; either may be empty.
pub open spec fn spec_block_header(s: Seq<char>, i: int) -> Option<(int, BlockInfoView)> {
    if !(0 <= i < s.len() && s[i] == '[') {
        None
    } else {
        match spec_find(s, i + 1, seq!['|']) {
            None => None,
            Some(j) => match spec_find(s, j + 1, seq![']']) {
                None => None,
                Some(k) => Some(
                    (
                        k + 1,
                        BlockInfoView {
                            name: spec_trim(s.subrange(i + 1, j)),
                            template_name: spec_trim(s.subrange(j + 1, k)),
                        },
                    ),
                ),
            },
        }
    }
}

/// A parsed header lies inside the text and ends after its position.
pub proof fn lemma_block_header_bounds(s: Seq<char>, i: int)
    requires
        0 <= i <= s.len(),
    ensures
        spec_block_header(s, i) matches Some((p, info)) ==> i < p <= s.len(),
{
    if 0 <= i < s.len() && s[i] == '[' {
        lemma_find(s, i + 1, seq!['|']);
        if let Some(j) = spec_find(s, i + 1, seq!['|']) {
            lemma_find(s, j + 1, seq![']']);
        }
    }
}

/// Parses a block header at `pos`, per [`spec_block_header`].
pub fn block_header(text: &str, pos: usize) -> (r: Option<(usize, BlockInfo)>)
    requires
        pos <= text@.len(),
    ensures
        match r {
            Some((p, info)) => spec_block_header(text@, pos as int) == Some((p as int, info@)),
            None => spec_block_header(text@, pos as int) is None,
        },
{
    proof {
        reveal_strlit("|");
        reveal_strlit("]");
        assert("|"@ =~= seq!['|']);
        assert("]"@ =~= seq![']']);
    }
    let n = text.unicode_len();
    if pos >= n {
        return None;
    }
    if text.get_char(pos) != '[' {
        return None;
    }
    let j = match find(text, pos + 1, "|") {
        None => {
            return None;
        },
        Some(j) => j,
    };
    proof {
        lemma_find(text@, pos + 1, "|"@);
    }
    let k = match find(text, j + 1, "]") {
        None => {
            return None;
        },
        Some(k) => k,
    };
    proof {
        lemma_find(text@, j + 1, "]"@);
    }
    let name = extract_trimmed(text, pos + 1, j);
    let template_name = extract_trimmed(text, j + 1, k);
    Some((k + 1, BlockInfo { name, template_name }))
}

/// The first position at or after `i` that holds a brace.
pub open spec fn spec_link_end(s: Seq<char>, i: int) -> Option<int>
    decreases s.len() - i
        when 0 <= i <= s.len()
{
    if i >= s.len() {
        None
    } else if s[i] == '{' || s[i] == '}' {
        Some(i)
    } else {
        spec_link_end(s, i + 1)
    }
}

/// The link grammar at position `i`: `'{' run without braces '}'`, with a
/// non-empty target.
pub open spec fn spec_block_link(s: Seq<char>, i: int) -> Option<(int, BlockContentView)> {
    if !(0 <= i < s.len() && s[i] == '{') {
        None
    } else {
        match spec_link_end(s, i + 1) {
            None => None,
            Some(j) => if j > i + 1 && s[j] == '}' {
                Some((j + 1, BlockContentView::Link(s.subrange(i + 1, j))))
            } else {
                None
            },
        }
    }
}

/// What `spec_link_end` returns: the first brace, or a guarantee of none.
pub proof fn lemma_link_end(s: Seq<char>, i: int)
    requires
        0 <= i <= s.len(),
    ensures
        match spec_link_end(s, i) {
            Some(j) => i <= j < s.len() && (s[j] == '{' || s[j] == '}') && (forall|k: int|
                i <= k < j ==> s[k] != '{' && s[k] != '}'),
            None => forall|k: int| i <= k < s.len() ==> s[k] != '{' && s[k] != '}',
        },
    decreases s.len() - i,
{
    if i < s.len() && !(s[i] == '{' || s[i] == '}') {
        lemma_link_end(s, i + 1);
    }
}

/// Parses a link at `pos`, per [`spec_block_link`].
pub fn block_link(text: &str, pos: usize) -> (r: Option<(usize, BlockContent)>)
    requires
        pos <= text@.len(),
    ensures
        match r {
            Some((p, c)) => spec_block_link(text@, pos as int) == Some((p as int, c@)),
            None => spec_block_link(text@, pos as int) is None,
        },
{
    let n = text.unicode_len();
    if pos >= n {
        return None;
    }
    if text.get_char(pos) != '{' {
        return None;
    }
    let mut i: usize = pos + 1;
    loop
        invariant
            n == text@.len(),
            pos + 1 <= i <= n,
            pos < n,
            text@[pos as int] == '{',
            spec_link_end(text@, pos + 1) == spec_link_end(text@, i as int),
        decreases n - i,
    {
        if i >= n {
            return None;
        }
        let c = text.get_char(i);
        if c == '{' {
            return None;
        }
        if c == '}' {
            if i > pos + 1 {
                let target = text.substring_char(pos + 1, i).to_owned();
                return Some((i + 1, BlockContent::Link(target)));
            }
            return None;
        }
        i += 1;
    }
}

/// The embed grammar at position `i`: `'{{'`, any text, `'}}'`.
pub open spec fn spec_block_embed(s: Seq<char>, i: int) -> Option<(int, BlockContentView)> {
    if !prefix_at(s, i, seq!['{', '{']) {
        None
    } else {
        match spec_find(s, i + 2, seq!['}', '}']) {
            None => None,
            Some(j) => Some((j + 2, BlockContentView::Embed(s.subrange(i + 2, j)))),
        }
    }
}

/// Parses an embed at `pos`, per [`spec_block_embed`].
pub fn block_embed(text: &str, pos: usize) -> (r: Option<(usize, BlockContent)>)
    requires
        pos <= text@.len(),
    ensures
        match r {
            Some((p, c)) => spec_block_embed(text@, pos as int) == Some((p as int, c@)),
            None => spec_block_embed(text@, pos as int) is None,
        },
{
    proof {
        reveal_strlit("{{");
        reveal_strlit("}}");
        assert("{{"@ =~= seq!['{', '{']);
        assert("}}"@ =~= seq!['}', '}']);
    }
    let n = text.unicode_len();
    if !match_at(text, pos, "{{") {
        return None;
    }
    let j = match find(text, pos + 2, "}}") {
        None => {
            return None;
        },
        Some(j) => j,
    };
    proof {
        lemma_find(text@, pos + 2, "}}"@);
    }
    let target = text.substring_char(pos + 2, j).to_owned();
    Some((j + 2, BlockContent::Embed(target)))
}

/// The code-fence grammar at position `i`: the language's multiline *end*
/// token, the code text, then its multiline *start* token.
pub open spec fn spec_code(s: Seq<char>, i: int, lang: LanguageConfigView) -> Option<
    (int, BlockContentView),
> {
    if !prefix_at(s, i, lang.multiline_end) {
        None
    } else {
        match spec_find(s, i + lang.multiline_end.len(), lang.multiline_start) {
            None => None,
            Some(j) => Some(
                (
                    j + lang.multiline_start.len(),
                    BlockContentView::Code(s.subrange(i + lang.multiline_end.len(), j)),
                ),
            ),
        }
    }
}

/// Parses a code fence at `pos`, per [`spec_code`].
pub fn code(text: &str, pos: usize, lang: &LanguageConfig) -> (r: Option<(usize, BlockContent)>)
    requires
        pos <= text@.len(),
        lang.wf(),
    ensures
        match r {
            Some((p, c)) => spec_code(text@, pos as int, lang@) == Some((p as int, c@)),
            None => spec_code(text@, pos as int, lang@) is None,
        },
{
    let n = text.unicode_len();
    if !match_at(text, pos, lang.multiline_end.as_str()) {
        return None;
    }
    let me_len = lang.multiline_end.as_str().unicode_len();
    let fence_start = pos + me_len;
    let j = match find(text, fence_start, lang.multiline_start.as_str()) {
        None => {
            return None;
        },
        Some(j) => j,
    };
    proof {
        lemma_find(text@, fence_start as int, lang@.multiline_start);
    }
    let ms_len = lang.multiline_start.as_str().unicode_len();
    let body = text.substring_char(fence_start, j).to_owned();
    Some((j + ms_len, BlockContent::Code(body)))
}

/// A position where a markdown run must stop: a block marker, a multiline end
/// token, or an opening brace.
pub open spec fn is_md_stop(s: Seq<char>, i: int, lang: LanguageConfigView) -> bool {
    ||| prefix_at(s, i, lang.block_marker)
    ||| prefix_at(s, i, lang.multiline_end)
    ||| (0 <= i < s.len() && s[i] == '{')
}

/// The first markdown stop at or after `i`, if the text holds one.
pub open spec fn spec_md_end(s: Seq<char>, i: int, lang: LanguageConfigView) -> Option<int>
    decreases s.len() - i
        when 0 <= i <= s.len()
{
    if is_md_stop(s, i, lang) {
        Some(i)
    } else if i < s.len() {
        spec_md_end(s, i + 1, lang)
    } else {
        None
    }
}

/// What `spec_md_end` returns: the first stop, or a guarantee of none.
pub proof fn lemma_md_end(s: Seq<char>, i: int, lang: LanguageConfigView)
    requires
        0 <= i <= s.len(),
    ensures
        match spec_md_end(s, i, lang) {
            Some(j) => i <= j <= s.len() && is_md_stop(s, j, lang) && (forall|k: int|
                i <= k < j ==> !is_md_stop(s, k, lang)),
            None => forall|k: int| i <= k <= s.len() ==> !is_md_stop(s, k, lang),
        },
    decreases s.len() - i,
{
    if !is_md_stop(s, i, lang) && i < s.len() {
        lemma_md_end(s, i + 1, lang);
    }
}

/// The markdown grammar at position `i`: a non-empty run of characters up to
/// (not consuming) the first stop position.
pub open spec fn spec_markdown(s: Seq<char>, i: int, lang: LanguageConfigView) -> Option<
    (int, BlockContentView),
> {
    match spec_md_end(s, i, lang) {
        None => None,
        Some(j) => if j > i {
            Some((j, BlockContentView::Markdown(s.subrange(i, j))))
        } else {
            None
        },
    }
}

/// Parses a markdown run at `pos`, per [`spec_markdown`].
pub fn markdown(text: &str, pos: usize, lang: &LanguageConfig) -> (r: Option<
    (usize, BlockContent),
>)
    requires
        pos <= text@.len(),
    ensures
        match r {
            Some((p, c)) => spec_markdown(text@, pos as int, lang@) == Some((p as int, c@)),
            None => spec_markdown(text@, pos as int, lang@) is None,
        },
{
    let n = text.unicode_len();
    let mut i: usize = pos;
    loop
        invariant
            n == text@.len(),
            pos <= i <= n,
            spec_md_end(text@, pos as int, lang@) == spec_md_end(text@, i as int, lang@),
        ensures
            pos <= i <= n,
            spec_md_end(text@, pos as int, lang@) == Some(i as int),
        decreases n - i,
    {
        if match_at(text, i, lang.block_marker.as_str()) {
            break ;
        }
        if match_at(text, i, lang.multiline_end.as_str()) {
            break ;
        }
        if i >= n {
            return None;
        }
        if text.get_char(i) == '{' {
            break ;
        }
        i += 1;
    }
    if i > pos {
        let body = text.substring_char(pos, i).to_owned();
        Some((i, BlockContent::Markdown(body)))
    } else {
        None
    }
}

/// One content item at position `i`: a link, an embed, a code fence or a
/// markdown run, tried in that order.
pub open spec fn spec_block_content(s: Seq<char>, i: int, lang: LanguageConfigView) -> Option<
    (int, BlockContentView),
> {
    match spec_block_link(s, i) {
        Some(r) => Some(r),
        None => match spec_block_embed(s, i) {
            Some(r) => Some(r),
            None => match spec_code(s, i, lang) {
                Some(r) => Some(r),
                None => spec_markdown(s, i, lang),
            },
        },
    }
}

/// A parsed content item consumes at least one character and stays inside the
/// text.
pub proof fn lemma_content_progress(s: Seq<char>, i: int, lang: LanguageConfigView)
    requires
        0 <= i <= s.len(),
        lang.wf(),
    ensures
        spec_block_content(s, i, lang) matches Some((p, c)) ==> i < p <= s.len(),
{
    if 0 <= i < s.len() && s[i] == '{' {
        lemma_link_end(s, i + 1);
    }
    if prefix_at(s, i, seq!['{', '{']) {
        lemma_find(s, i + 2, seq!['}', '}']);
    }
    if prefix_at(s, i, lang.multiline_end) {
        lemma_find(s, i + lang.multiline_end.len(), lang.multiline_start);
    }
    lemma_md_end(s, i, lang);
}

/// Parses one content item at `pos`, per [`spec_block_content`].
pub fn block_content(text: &str, pos: usize, lang: &LanguageConfig) -> (r: Option<
    (usize, BlockContent),
>)
    requires
        pos <= text@.len(),
        lang.wf(),
    ensures
        match r {
            Some((p, c)) => spec_block_content(text@, pos as int, lang@) == Some((p as int, c@)),
            None => spec_block_content(text@, pos as int, lang@) is None,
        },
{
    if let Some(r) = block_link(text, pos) {
        return Some(r);
    }
    if let Some(r) = block_embed(text, pos) {
        return Some(r);
    }
    if let Some(r) = code(text, pos, lang) {
        return Some(r);
    }
    markdown(text, pos, lang)
}

/// The views of a sequence of content items.
pub open spec fn views_of(items: Seq<BlockContent>) -> Seq<BlockContentView> {
    items.map_values(|c: BlockContent| c@)
}

/// The views of a sequence of blocks.
pub open spec fn views_of_blocks(blocks: Seq<Block>) -> Seq<BlockView> {
    blocks.map_values(|b: Block| b@)
}

/// The longest run of content items that starts at `i`: where it ends, and
/// the items in document order.
pub open spec fn spec_content_list(s: Seq<char>, i: int, lang: LanguageConfigView) -> (
    int,
    Seq<BlockContentView>,
)
    decreases s.len() - i
        when 0 <= i <= s.len()
{
    match spec_block_content(s, i, lang) {
        None => (i, Seq::empty()),
        Some((p, c)) => if i < p <= s.len() {
            let r = spec_content_list(s, p, lang);
            (r.0, seq![c] + r.1)
        } else {
            (p, seq![c])
        },
    }
}

/// A content run ends inside the text, at or after where it started.
pub proof fn lemma_content_list_bounds(s: Seq<char>, i: int, lang: LanguageConfigView)
    requires
        0 <= i <= s.len(),
        lang.wf(),
    ensures
        i <= spec_content_list(s, i, lang).0 <= s.len(),
    decreases s.len() - i,
{
    lemma_content_progress(s, i, lang);
    match spec_block_content(s, i, lang) {
        None => {},
        Some((p, c)) => {
            lemma_content_list_bounds(s, p, lang);
        },
    }
}

/// The block grammar at position `i`: whitespace, the block marker,
/// whitespace, a header, one or more content items, then the block marker
/// again.
pub open spec fn spec_block(s: Seq<char>, i: int, lang: LanguageConfigView) -> Option<
    (int, BlockView),
> {
    let i1 = ws_end(s, i);
    if !prefix_at(s, i1, lang.block_marker) {
        None
    } else {
        let i3 = ws_end(s, i1 + lang.block_marker.len());
        match spec_block_header(s, i3) {
            None => None,
            Some((i4, info)) => {
                let r = spec_content_list(s, i4, lang);
                if r.1.len() == 0 {
                    None
                } else if prefix_at(s, r.0, lang.block_marker) {
                    Some((r.0 + lang.block_marker.len(), BlockView { info, content: r.1 }))
                } else {
                    None
                }
            },
        }
    }
}

/// A parsed block consumes at least one character and ends inside the text.
pub proof fn lemma_block_bounds(s: Seq<char>, i: int, lang: LanguageConfigView)
    requires
        0 <= i <= s.len(),
        lang.wf(),
    ensures
        spec_block(s, i, lang) matches Some((p, b)) ==> i < p <= s.len(),
{
    lemma_ws_end(s, i);
    let i1 = ws_end(s, i);
    if prefix_at(s, i1, lang.block_marker) {
        lemma_ws_end(s, i1 + lang.block_marker.len());
        let i3 = ws_end(s, i1 + lang.block_marker.len());
        lemma_block_header_bounds(s, i3);
        match spec_block_header(s, i3) {
            None => {},
            Some((i4, info)) => {
                lemma_content_list_bounds(s, i4, lang);
            },
        }
    }
}

/// Parses a block at `pos`, per [`spec_block`].
pub fn block(text: &str, pos: usize, lang: &LanguageConfig) -> (r: Option<(usize, Block)>)
    requires
        pos <= text@.len(),
        lang.wf(),
    ensures
        match r {
            Some((p, b)) => spec_block(text@, pos as int, lang@) == Some((p as int, b@)),
            None => spec_block(text@, pos as int, lang@) is None,
        },
{
    let n = text.unicode_len();
    let i1 = ws(text, pos);
    if !match_at(text, i1, lang.block_marker.as_str()) {
        return None;
    }
    let mlen = lang.block_marker.as_str().unicode_len();
    let i3 = ws(text, i1 + mlen);
    let (i4, info) = match block_header(text, i3) {
        None => {
            return None;
        },
        Some(x) => x,
    };
    proof {
        lemma_block_header_bounds(text@, i3 as int);
    }
    let mut cur: usize = i4;
    let mut items: Vec<BlockContent> = Vec::new();
    loop
        invariant
            n == text@.len(),
            lang.wf(),
            i4 <= cur <= n,
            spec_content_list(text@, i4 as int, lang@).0 == spec_content_list(
                text@,
                cur as int,
                lang@,
            ).0,
            spec_content_list(text@, i4 as int, lang@).1 == views_of(items@)
                + spec_content_list(text@, cur as int, lang@).1,
        ensures
            i4 <= cur <= n,
            spec_content_list(text@, i4 as int, lang@).0 == cur as int,
            spec_content_list(text@, i4 as int, lang@).1 == views_of(items@),
        decreases n - cur,
    {
        match block_content(text, cur, lang) {
            None => {
                proof {
                    assert(views_of(items@) + spec_content_list(text@, cur as int, lang@).1
                        =~= views_of(items@));
                }
                break ;
            },
            Some((p, c)) => {
                proof {
                    lemma_content_progress(text@, cur as int, lang@);
                }
                let ghost prev_items = items@;
                let ghost prev_cur = cur as int;
                items.push(c);
                cur = p;
                proof {
                    assert(views_of(prev_items.push(c)) =~= views_of(prev_items) + seq![c@]);
                    assert(spec_content_list(text@, prev_cur, lang@).1 == seq![c@]
                        + spec_content_list(text@, cur as int, lang@).1);
                    assert(views_of(prev_items) + (seq![c@] + spec_content_list(
                        text@,
                        cur as int,
                        lang@,
                    ).1) =~= (views_of(prev_items) + seq![c@]) + spec_content_list(
                        text@,
                        cur as int,
                        lang@,
                    ).1);
                }
            },
        }
    }
    if items.len() == 0 {
        return None;
    }
    if !match_at(text, cur, lang.block_marker.as_str()) {
        return None;
    }
    let b = Block { info, content: items };
    proof {
        assert(b@.content =~= spec_content_list(text@, i4 as int, lang@).1);
        assert(b@ =~= (BlockView {
            info: spec_block_header(text@, i3 as int)->Some_0.1,
            content: spec_content_list(text@, i4 as int, lang@).1,
        }));
    }
    Some((cur + mlen, b))
}

/// The whole-file scan starting at position `i`: the blocks of the text in
/// file order. Text before, between and after blocks is discarded, but a
/// block marker that does not open a well-formed block fails the scan.
pub open spec fn spec_scan(s: Seq<char>, i: int, lang: LanguageConfigView) -> Option<
    Seq<BlockView>,
>
    decreases s.len() - i
        when 0 <= i <= s.len() && lang.wf()
{
    match spec_block(s, i, lang) {
        Some((p, b)) => if i < p <= s.len() {
            match spec_scan(s, p, lang) {
                Some(rest) => Some(seq![b] + rest),
                None => None,
            }
        } else {
            None
        },
        None => {
            if prefix_at(s, ws_end(s, i), lang.block_marker) {
                None
            } else {
                match spec_find(s, i, lang.block_marker) {
                    None => Some(Seq::empty()),
                    Some(j) => if i < j && j <= s.len() {
                        spec_scan(s, j, lang)
                    } else {
                        None
                    },
                }
            }
        },
    }
}

/// Scans a whole file, per [`spec_scan`]: returns its blocks in file order,
/// or a parsing error when some block marker does not open a well-formed
/// block.
pub fn file_parser(text: &str, lang: &LanguageConfig) -> (r: Result<Vec<Block>, AnubisError>)
    requires
        lang.wf(),
    ensures
        match r {
            Ok(blocks) => spec_scan(text@, 0, lang@) == Some(views_of_blocks(blocks@)),
            Err(e) => spec_scan(text@, 0, lang@) is None && e matches AnubisError::ParsingError(_),
        },
{
    let n = text.unicode_len();
    let mut cur: usize = 0;
    let mut blocks: Vec<Block> = Vec::new();
    loop
        invariant
            n == text@.len(),
            lang.wf(),
            cur <= n,
            match spec_scan(text@, cur as int, lang@) {
                Some(rest) => spec_scan(text@, 0, lang@) == Some(views_of_blocks(blocks@) + rest),
                None => spec_scan(text@, 0, lang@) is None,
            },
        decreases n - cur,
    {
        match block(text, cur, lang) {
            Some((p, b)) => {
                proof {
                    lemma_block_bounds(text@, cur as int, lang@);
                }
                let ghost prev_blocks = blocks@;
                let ghost prev_cur = cur as int;
                blocks.push(b);
                cur = p;
                proof {
                    assert(views_of_blocks(prev_blocks.push(b)) =~= views_of_blocks(prev_blocks)
                        + seq![b@]);
                    match spec_scan(text@, cur as int, lang@) {
                        Some(rest) => {
                            assert(spec_scan(text@, prev_cur, lang@) == Some(seq![b@] + rest));
                            assert(views_of_blocks(prev_blocks) + (seq![b@] + rest)
                                =~= (views_of_blocks(prev_blocks) + seq![b@]) + rest);
                        },
                        None => {},
                    }
                }
            },
            None => {
                let i1 = ws(text, cur);
                if match_at(text, i1, lang.block_marker.as_str()) {
                    return Err(AnubisError::ParsingError("malformed block".to_owned()));
                }
                match find(text, cur, lang.block_marker.as_str()) {
                    None => {
                        proof {
                            assert(spec_scan(text@, cur as int, lang@) == Some(
                                Seq::<BlockView>::empty(),
                            ));
                            assert(views_of_blocks(blocks@) + Seq::<BlockView>::empty()
                                =~= views_of_blocks(blocks@));
                        }
                        return Ok(blocks);
                    },
                    Some(j) => {
                        proof {
                            lemma_find(text@, cur as int, lang@.block_marker);
                            if j == cur {
                                assert(text@.subrange(
                                    cur as int,
                                    cur + lang@.block_marker.len(),
                                )[0] == text@[cur as int]);
                                assert(text@[cur as int] == lang@.block_marker[0]);
                                assert(!is_space(lang@.block_marker[0]));
                                assert(ws_end(text@, cur as int) == cur as int);
                            }
                        }
                        cur = j;
                    },
                }
            },
        }
    }
}
} // verus!
