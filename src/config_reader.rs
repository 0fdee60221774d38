//! Language definitions as a configuration supplies them, before validation.
use vstd::prelude::*;

verus! {

/// Why a configuration cannot be turned into a language registry.
#[derive(Debug, Clone, Copy, PartialEq, Eq, Structural)]
pub enum ConfigError {
    DirectoryPathMissing,
    LanguagesMissing,
    LanguageNameMissing,
    CommentsMissing,
    BlockCommentMissing,
    InvalidBlockComment,
    LineCommentMissing,
    InvalidLineComment,
    ExtensionMissing,
    InvalidExtension,
}

/// A configured block comment; either token may be missing.
#[derive(Debug)]
pub struct CfgBlock {
    pub open: Option<String>,
    pub close: Option<String>,
}

/// A configured comment syntax; either part may be missing.
#[derive(Debug)]
pub struct CfgCommentType {
    pub line: Option<Vec<String>>,
    pub block: Option<CfgBlock>,
}

/// A configured language; any part may be missing.
#[derive(Debug)]
pub struct CfgLangEntry {
    pub name: Option<String>,
    pub extensions: Option<Vec<String>>,
    pub comments: Option<CfgCommentType>,
}

/// A configuration: the directory to analyse and the languages to count.
#[derive(Debug)]
pub struct Config {
    pub dir: String,
    pub languages: Vec<CfgLangEntry>,
}

impl Config {
    /// A configuration must name at least one language.
    pub fn validate_languages(&self) -> (r: Result<(), ConfigError>)
        ensures
            r == (if self.languages@.len() == 0 {
                Err(ConfigError::LanguagesMissing)
            } else {
                Ok(())
            }),
    {
        if self.languages.len() == 0 {
            return Err(ConfigError::LanguagesMissing);
        }
        Ok(())
    }
}

} // verus!
