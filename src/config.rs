//! Configuration of the text, CSV and binary variants of `COPY FROM` and
//! `COPY TO`. This is data for the row codecs of those formats: delimiters,
//! the null sentinel, quoting, and per-column overrides.

use vstd::prelude::*;

verus! {

/// The default value for [`CopyTextConfig::delimiter`]: a tab.
pub const DEFAULT_COPY_TEXT_DELIMITER: u8 = 9;

/// The default value for [`CopyTextConfig::null`].
pub const DEFAULT_COPY_TEXT_NULL: &'static str = "\\N";

/// The default value for [`CopyCsvCommonConfig::delimiter`]: a comma.
pub const DEFAULT_COPY_CSV_DELIMITER: u8 = 44;

/// The default value for [`CopyCsvCommonConfig::null`].
pub const DEFAULT_COPY_CSV_NULL: &'static str = "";

/// The default value for [`CopyCsvCommonConfig::quote`]: a double quote.
pub const DEFAULT_COPY_CSV_QUOTE: u8 = 34;

/// The default value for [`CopyCsvCommonConfig::header`].
pub const DEFAULT_COPY_CSV_HEADER: bool = false;

/// The default value for [`CopyCsvFromConfig::force_not_null`].
pub const DEFAULT_COPY_CSV_FORCE_NOT_NULL: bool = false;

/// The default value for [`CopyCsvFromConfig::force_null`].
pub const DEFAULT_COPY_CSV_FORCE_NULL: bool = false;

/// The default value for [`CopyCsvToConfig::force_quote`].
pub const DEFAULT_COPY_CSV_FORCE_QUOTE: bool = false;

/// Configuration for the text format for `COPY` operations.
#[derive(Debug)]
pub struct CopyTextConfig {
    /// The character that separates columns within each row.
    pub delimiter: u8,
    /// The string that represents the null value.
    pub null: String,
}

impl Default for CopyTextConfig {
    /// A tab between columns, `\N` for null.
    fn default() -> (r: CopyTextConfig)
        ensures
            r.delimiter == DEFAULT_COPY_TEXT_DELIMITER,
            r.null@ == DEFAULT_COPY_TEXT_NULL@,
    {
        CopyTextConfig { delimiter: DEFAULT_COPY_TEXT_DELIMITER, null: DEFAULT_COPY_TEXT_NULL.to_owned() }
    }
}

/// Configuration for the CSV format common to both `COPY FROM` and `COPY TO`
/// operations.
#[derive(Debug)]
pub struct CopyCsvCommonConfig {
    /// The character that separates columns within each row.
    pub delimiter: u8,
    /// The string that represents the null value.
    pub null: String,
    /// Whether the file begins with a header row naming the columns.
    pub header: bool,
    /// The quoting character to use for columns that are quoted.
    pub quote: u8,
    /// The character used to escape the quote character inside of quoted
    /// values.
    pub escape: u8,
}

impl Default for CopyCsvCommonConfig {
    /// A comma between columns, the empty string for null, no header, and
    /// `"` both to quote and to escape.
    fn default() -> (r: CopyCsvCommonConfig)
        ensures
            r.delimiter == DEFAULT_COPY_CSV_DELIMITER,
            r.null@ == DEFAULT_COPY_CSV_NULL@,
            r.header == DEFAULT_COPY_CSV_HEADER,
            r.quote == DEFAULT_COPY_CSV_QUOTE,
            r.escape == DEFAULT_COPY_CSV_QUOTE,
    {
        CopyCsvCommonConfig::with_quote(DEFAULT_COPY_CSV_QUOTE)
    }
}

impl CopyCsvCommonConfig {
    /// The defaults, but with `quote` as the quote character; the escape
    /// character follows the quote character.
    pub fn with_quote(quote: u8) -> (r: CopyCsvCommonConfig)
        ensures
            r.delimiter == DEFAULT_COPY_CSV_DELIMITER,
            r.null@ == DEFAULT_COPY_CSV_NULL@,
            r.header == DEFAULT_COPY_CSV_HEADER,
            r.quote == quote,
            r.escape == quote,
    {
        CopyCsvCommonConfig {
            delimiter: DEFAULT_COPY_CSV_DELIMITER,
            null: DEFAULT_COPY_CSV_NULL.to_owned(),
            header: DEFAULT_COPY_CSV_HEADER,
            quote,
            escape: quote,
        }
    }
}

/// The flag of column `col`: its entry where the vector has one, `false`
/// otherwise.
pub open spec fn flag_at(flags: Seq<bool>, col: int) -> bool {
    0 <= col < flags.len() && flags[col]
}

fn flag_of(flags: &Vec<bool>, col: usize) -> (r: bool)
    ensures
        r == flag_at(flags@, col as int),
{
    col < flags.len() && flags[col]
}

fn all_false(n: usize) -> (r: Vec<bool>)
    ensures
        r@.len() == n,
        forall|i: int| 0 <= i < n ==> !r@[i],
{
    let mut v: Vec<bool> = Vec::new();
    let mut i: usize = 0;
    while i < n
        invariant
            i <= n,
            v@.len() == i,
            forall|j: int| 0 <= j < i ==> !v@[j],
        decreases n - i,
    {
        v.push(false);
        i = i + 1;
    }
    v
}

/// Configuration for the CSV format for `COPY FROM` operations.
#[derive(Debug)]
pub struct CopyCsvFromConfig {
    /// Configuration common to `COPY FROM` and `COPY TO` operations.
    pub common: CopyCsvCommonConfig,
    /// For each column in the file, whether to ignore null sentinels.
    pub force_not_null: Vec<bool>,
    /// For each column in the file, whether to detect null sentinels even if
    /// the value is quoted.
    pub force_null: Vec<bool>,
}

impl CopyCsvFromConfig {
    /// `common`, with every per-column flag off for `arity` columns.
    pub fn new(common: CopyCsvCommonConfig, arity: usize) -> (r: CopyCsvFromConfig)
        ensures
            r.common == common,
            r.force_not_null@.len() == arity,
            r.force_null@.len() == arity,
            forall|i: int| 0 <= i < arity ==> !r.force_not_null@[i] && !r.force_null@[i],
    {
        CopyCsvFromConfig { common, force_not_null: all_false(arity), force_null: all_false(arity) }
    }

    /// Whether the per-column vectors have one entry per column.
    pub fn fits_arity(&self, arity: usize) -> (r: bool)
        ensures
            r == (self.force_not_null@.len() == arity && self.force_null@.len() == arity),
    {
        self.force_not_null.len() == arity && self.force_null.len() == arity
    }

    /// Whether null sentinels are ignored in column `col`.
    pub fn force_not_null_at(&self, col: usize) -> (r: bool)
        ensures
            r == flag_at(self.force_not_null@, col as int),
    {
        flag_of(&self.force_not_null, col)
    }

    /// Whether quoted null sentinels are detected in column `col`.
    pub fn force_null_at(&self, col: usize) -> (r: bool)
        ensures
            r == flag_at(self.force_null@, col as int),
    {
        flag_of(&self.force_null, col)
    }
}

/// Configuration for the CSV format for `COPY TO` operations.
#[derive(Debug)]
pub struct CopyCsvToConfig {
    /// Configuration common to `COPY FROM` and `COPY TO` operations.
    pub common: CopyCsvCommonConfig,
    /// For each column in the file, whether to force quoting.
    pub force_quote: Vec<bool>,
}

impl CopyCsvToConfig {
    /// `common`, with quoting not forced in any of `arity` columns.
    pub fn new(common: CopyCsvCommonConfig, arity: usize) -> (r: CopyCsvToConfig)
        ensures
            r.common == common,
            r.force_quote@.len() == arity,
            forall|i: int| 0 <= i < arity ==> !r.force_quote@[i],
    {
        CopyCsvToConfig { common, force_quote: all_false(arity) }
    }

    /// Whether the per-column vector has one entry per column.
    pub fn fits_arity(&self, arity: usize) -> (r: bool)
        ensures
            r == (self.force_quote@.len() == arity),
    {
        self.force_quote.len() == arity
    }

    /// Whether quoting is forced in column `col`.
    pub fn force_quote_at(&self, col: usize) -> (r: bool)
        ensures
            r == flag_at(self.force_quote@, col as int),
    {
        flag_of(&self.force_quote, col)
    }
}

/// Configuration for a `COPY FROM` operation.
#[derive(Debug)]
pub enum CopyFromConfig {
    /// Text format.
    Text(CopyTextConfig),
    /// CSV format.
    Csv(CopyCsvFromConfig),
    /// Binary format.
    Binary,
}

impl CopyFromConfig {
    /// Whether the per-column overrides, if any, have one entry per column.
    pub fn fits_arity(&self, arity: usize) -> (r: bool)
        ensures
            r == match self {
                CopyFromConfig::Csv(c) => c.force_not_null@.len() == arity && c.force_null@.len() == arity,
                _ => true,
            },
    {
        match self {
            CopyFromConfig::Csv(c) => c.fits_arity(arity),
            _ => true,
        }
    }
}

/// Configuration for a `COPY TO` operation.
#[derive(Debug)]
pub enum CopyToConfig {
    /// Text format.
    Text(CopyTextConfig),
    /// CSV format.
    Csv(CopyCsvToConfig),
    /// Binary format.
    Binary,
}

impl CopyToConfig {
    /// Whether the per-column overrides, if any, have one entry per column.
    pub fn fits_arity(&self, arity: usize) -> (r: bool)
        ensures
            r == match self {
                CopyToConfig::Csv(c) => c.force_quote@.len() == arity,
                _ => true,
            },
    {
        match self {
            CopyToConfig::Csv(c) => c.fits_arity(arity),
            _ => true,
        }
    }
}

} // verus!
