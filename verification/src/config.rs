//! Per-language delimiter configuration: the markers that open and close a
//! documentation block and the comment tokens that delimit code fences, looked
//! up by file extension.

use vstd::prelude::*;

use crate::table::Table;

verus! {

/// Mathematical value of a [`LanguageConfig`].
#[verifier::ext_equal]
pub ghost struct LanguageConfigView {
    pub language_tag: Seq<char>,
    pub block_marker: Seq<char>,
    pub multiline_start: Seq<char>,
    pub multiline_end: Seq<char>,
}

impl LanguageConfigView {
    /// The delimiters a scan relies on: the block marker is a non-empty token
    /// free of whitespace (it must be findable after skipping whitespace), and
    /// the comment tokens that fence code are non-empty (an empty fence token
    /// would let the scanner match endlessly without consuming input).
    pub open spec fn wf(&self) -> bool {
        &&& self.block_marker.len() > 0
        &&& (forall|i: int|
            0 <= i < self.block_marker.len() ==> !crate::parser_core::is_space(
                #[trigger] self.block_marker[i],
            ))
        &&& self.multiline_start.len() > 0
        &&& self.multiline_end.len() > 0
    }
}

/// The four syntactic markers of one host language: a tag naming the language
/// (used to label rendered code fences), the block marker, and the multiline
/// comment tokens.
#[derive(Debug)]
pub struct LanguageConfig {
    pub language_tag: String,
    pub block_marker: String,
    pub multiline_start: String,
    pub multiline_end: String,
}

impl View for LanguageConfig {
    type V = LanguageConfigView;

    open spec fn view(&self) -> LanguageConfigView {
        LanguageConfigView {
            language_tag: self.language_tag@,
            block_marker: self.block_marker@,
            multiline_start: self.multiline_start@,
            multiline_end: self.multiline_end@,
        }
    }
}

impl DeepView for LanguageConfig {
    type V = LanguageConfigView;

    open spec fn deep_view(&self) -> LanguageConfigView {
        self@
    }
}

impl Clone for LanguageConfig {
    fn clone(&self) -> (r: Self)
        ensures
            r@ == self@,
    {
        LanguageConfig {
            language_tag: self.language_tag.clone(),
            block_marker: self.block_marker.clone(),
            multiline_start: self.multiline_start.clone(),
            multiline_end: self.multiline_end.clone(),
        }
    }
}

impl LanguageConfig {
    /// The delimiters are usable for scanning; see [`LanguageConfigView::wf`].
    pub open spec fn wf(&self) -> bool {
        self@.wf()
    }
}

/// The whole configuration: the base URL that links are rendered against,
/// where templates live, which paths a scan ignores, and the delimiter table,
/// keyed by file extension.
pub struct AnubisConfig {
    pub url: Option<String>,
    pub template_directory: Option<String>,
    pub anubis_ignore: Option<Vec<String>>,
    pub language_configs: Table<LanguageConfig>,
}

impl AnubisConfig {
    /// Creates a configuration with no URL, no template directory, no ignored
    /// paths and an empty delimiter table.
    pub fn new() -> (r: Self)
        ensures
            r.url is None,
            r.template_directory is None,
            r.anubis_ignore is None,
            r.language_configs@ == Map::<Seq<char>, LanguageConfigView>::empty(),
            r.language_configs.wf(),
    {
        AnubisConfig {
            url: None,
            template_directory: None,
            anubis_ignore: None,
            language_configs: Table::new(),
        }
    }

    /// Looks the delimiter entry for a file extension up.
    pub fn get_language(&self, extension: &str) -> (r: Option<&LanguageConfig>)
        requires
            self.language_configs.wf(),
        ensures
            match r {
                Some(lang) => self.language_configs@.contains_key(extension@) && lang@
                    == self.language_configs@[extension@],
                None => !self.language_configs@.contains_key(extension@),
            },
    {
        self.language_configs.get(extension)
    }
}

} // verus!
