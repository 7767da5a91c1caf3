use vstd::prelude::*;
use crate::delta::Score;
use crate::error::StowrError;
use crate::text::{
    chars_of, decimal_string, decimal_text, fraction_text, owned, parse_unit_fraction,
    parse_unsigned, ratio_string, ratio_text, same_text, unsigned_text,
};

verus! {

/// What `str::to_lowercase` returns for a string: its characters lowercased by Unicode's
/// rules.
pub uninterp spec fn lower_of(s: Seq<char>) -> Seq<char>;

/// Relies on `str::to_lowercase`: the result depends on the characters alone.
#[verifier::external_body]
pub(crate) fn lowercase(s: &str) -> (r: String)
    ensures
        r@ == lower_of(s@),
{
    s.to_lowercase()
}

/// Codec used for new physical objects.
#[derive(Debug, Clone, Copy, PartialEq, Eq, Structural)]
pub enum CompressionAlgorithm {
    Gzip,
    Zstd,
    Lz4,
}

/// The codec that a lowercased name denotes.
pub open spec fn algorithm_named(name: Seq<char>) -> Result<CompressionAlgorithm, StowrError> {
    if name == "gzip"@ {
        Ok(CompressionAlgorithm::Gzip)
    } else if name == "zstd"@ {
        Ok(CompressionAlgorithm::Zstd)
    } else if name == "lz4"@ {
        Ok(CompressionAlgorithm::Lz4)
    } else {
        Err(StowrError::InvalidInput)
    }
}

impl CompressionAlgorithm {
    /// Parses a codec name, ignoring case.
    pub fn from_str(s: &str) -> (r: Result<CompressionAlgorithm, StowrError>)
        ensures
            r == algorithm_named(lower_of(s@)),
    {
        let lower = lowercase(s);
        CompressionAlgorithm::from_lowercase_name(lower.as_str())
    }

    /// Parses a codec name that is already lowercased.
    pub fn from_lowercase_name(name: &str) -> (r: Result<CompressionAlgorithm, StowrError>)
        ensures
            r == algorithm_named(name@),
    {
        if same_text(name, "gzip") {
            Ok(CompressionAlgorithm::Gzip)
        } else if same_text(name, "zstd") {
            Ok(CompressionAlgorithm::Zstd)
        } else if same_text(name, "lz4") {
            Ok(CompressionAlgorithm::Lz4)
        } else {
            Err(StowrError::InvalidInput)
        }
    }

    pub open spec fn spec_name(self) -> Seq<char> {
        match self {
            CompressionAlgorithm::Gzip => "gzip"@,
            CompressionAlgorithm::Zstd => "zstd"@,
            CompressionAlgorithm::Lz4 => "lz4"@,
        }
    }

    /// The codec's name.
    pub fn to_string(&self) -> (r: String)
        ensures
            r@ == self.spec_name(),
    {
        match self {
            CompressionAlgorithm::Gzip => owned("gzip"),
            CompressionAlgorithm::Zstd => owned("zstd"),
            CompressionAlgorithm::Lz4 => owned("lz4"),
        }
    }

    pub open spec fn spec_extension(self) -> Seq<char> {
        match self {
            CompressionAlgorithm::Gzip => "gz"@,
            CompressionAlgorithm::Zstd => "zst"@,
            CompressionAlgorithm::Lz4 => "lz4"@,
        }
    }

    /// The file extension of physical objects written with this codec.
    pub fn file_extension(&self) -> (r: &'static str)
        ensures
            r@ == self.spec_extension(),
    {
        match self {
            CompressionAlgorithm::Gzip => "gz",
            CompressionAlgorithm::Zstd => "zst",
            CompressionAlgorithm::Lz4 => "lz4",
        }
    }

    /// The level that `validate_level` makes of `level`: gzip takes 0 to 9, zstd 1 to 22,
    /// and lz4 ignores it and stores 0.
    pub open spec fn spec_validate_level(self, level: u32) -> Result<u32, StowrError> {
        match self {
            CompressionAlgorithm::Gzip => if level > 9 {
                Err(StowrError::InvalidInput)
            } else {
                Ok(level)
            },
            CompressionAlgorithm::Zstd => if level < 1 || level > 22 {
                Err(StowrError::InvalidInput)
            } else {
                Ok(level)
            },
            CompressionAlgorithm::Lz4 => Ok(0),
        }
    }

    /// Checks a compression level against this codec's range.
    pub fn validate_level(&self, level: u32) -> (r: Result<u32, StowrError>)
        ensures
            r == self.spec_validate_level(level),
    {
        match self {
            CompressionAlgorithm::Gzip => {
                if level > 9 {
                    Err(StowrError::InvalidInput)
                } else {
                    Ok(level)
                }
            },
            CompressionAlgorithm::Zstd => {
                if level < 1 || level > 22 {
                    Err(StowrError::InvalidInput)
                } else {
                    Ok(level)
                }
            },
            CompressionAlgorithm::Lz4 => Ok(0),
        }
    }

    pub open spec fn spec_default_level(self) -> u32 {
        match self {
            CompressionAlgorithm::Gzip => 6,
            CompressionAlgorithm::Zstd => 3,
            CompressionAlgorithm::Lz4 => 0,
        }
    }

    /// The level used when none is configured: 6 for gzip, 3 for zstd, 0 for lz4.
    pub fn default_level(&self) -> (r: u32)
        ensures
            r == self.spec_default_level(),
            self.spec_validate_level(r) == Ok::<u32, StowrError>(r),
    {
        match self {
            CompressionAlgorithm::Gzip => 6,
            CompressionAlgorithm::Zstd => 3,
            CompressionAlgorithm::Lz4 => 0,
        }
    }
}

/// Delta algorithm; only `Simple` is implemented.
#[derive(Debug, Clone, Copy, PartialEq, Eq, Structural)]
pub enum DeltaAlgorithm {
    Simple,
    XDelta,
    BsDiff,
}

/// The delta algorithm that a lowercased name denotes.
pub open spec fn delta_algorithm_named(name: Seq<char>) -> Result<DeltaAlgorithm, StowrError> {
    if name == "simple"@ {
        Ok(DeltaAlgorithm::Simple)
    } else if name == "xdelta"@ {
        Ok(DeltaAlgorithm::XDelta)
    } else if name == "bsdiff"@ {
        Ok(DeltaAlgorithm::BsDiff)
    } else {
        Err(StowrError::InvalidInput)
    }
}

impl DeltaAlgorithm {
    /// Parses a delta algorithm name, ignoring case.
    pub fn from_str(s: &str) -> (r: Result<DeltaAlgorithm, StowrError>)
        ensures
            r == delta_algorithm_named(lower_of(s@)),
    {
        let lower = lowercase(s);
        DeltaAlgorithm::from_lowercase_name(lower.as_str())
    }

    /// Parses a delta algorithm name that is already lowercased.
    pub fn from_lowercase_name(name: &str) -> (r: Result<DeltaAlgorithm, StowrError>)
        ensures
            r == delta_algorithm_named(name@),
    {
        if same_text(name, "simple") {
            Ok(DeltaAlgorithm::Simple)
        } else if same_text(name, "xdelta") {
            Ok(DeltaAlgorithm::XDelta)
        } else if same_text(name, "bsdiff") {
            Ok(DeltaAlgorithm::BsDiff)
        } else {
            Err(StowrError::InvalidInput)
        }
    }

    pub open spec fn spec_name(self) -> Seq<char> {
        match self {
            DeltaAlgorithm::Simple => "simple"@,
            DeltaAlgorithm::XDelta => "xdelta"@,
            DeltaAlgorithm::BsDiff => "bsdiff"@,
        }
    }

    /// The algorithm's name.
    pub fn to_string(&self) -> (r: String)
        ensures
            r@ == self.spec_name(),
    {
        match self {
            DeltaAlgorithm::Simple => owned("simple"),
            DeltaAlgorithm::XDelta => owned("xdelta"),
            DeltaAlgorithm::BsDiff => owned("bsdiff"),
        }
    }
}

/// Which index backend a store uses.
#[derive(Debug, Clone, Copy, PartialEq, Eq, Structural)]
pub enum IndexMode {
    Auto,
    Json,
    Sqlite,
}

/// The index mode that a lowercased name denotes.
pub open spec fn index_mode_named(name: Seq<char>) -> Result<IndexMode, StowrError> {
    if name == "auto"@ {
        Ok(IndexMode::Auto)
    } else if name == "json"@ {
        Ok(IndexMode::Json)
    } else if name == "sqlite"@ {
        Ok(IndexMode::Sqlite)
    } else {
        Err(StowrError::InvalidInput)
    }
}

impl IndexMode {
    /// Parses an index mode name that is already lowercased.
    pub fn from_lowercase_name(name: &str) -> (r: Result<IndexMode, StowrError>)
        ensures
            r == index_mode_named(name@),
    {
        if same_text(name, "auto") {
            Ok(IndexMode::Auto)
        } else if same_text(name, "json") {
            Ok(IndexMode::Json)
        } else if same_text(name, "sqlite") {
            Ok(IndexMode::Sqlite)
        } else {
            Err(StowrError::InvalidInput)
        }
    }

    pub open spec fn spec_name(self) -> Seq<char> {
        match self {
            IndexMode::Auto => "auto"@,
            IndexMode::Json => "json"@,
            IndexMode::Sqlite => "sqlite"@,
        }
    }

    /// The mode's name, lowercase.
    pub fn to_string(&self) -> (r: String)
        ensures
            r@ == self.spec_name(),
    {
        match self {
            IndexMode::Auto => owned("auto"),
            IndexMode::Json => owned("json"),
            IndexMode::Sqlite => owned("sqlite"),
        }
    }
}

/// Default worker count: one.
pub fn default_multithread() -> (r: usize)
    ensures
        r == 1,
{
    1
}

/// Default codec: gzip.
pub fn default_compression_algorithm() -> (r: CompressionAlgorithm)
    ensures
        r == CompressionAlgorithm::Gzip,
{
    CompressionAlgorithm::Gzip
}

/// Default level: gzip's 6.
pub fn default_compression_level() -> (r: u32)
    ensures
        r == 6,
{
    6
}

/// Dedup is on by default.
pub fn default_enable_deduplication() -> (r: bool)
    ensures
        r,
{
    true
}

/// Delta storage is off by default.
pub fn default_enable_delta_compression() -> (r: bool)
    ensures
        !r,
{
    false
}

/// The default similarity threshold, 7/10.
pub fn default_similarity_threshold() -> (r: Score)
    ensures
        r == (Score { num: 7, den: 10 }),
{
    Score { num: 7, den: 10 }
}

/// Default delta algorithm: simple.
pub fn default_delta_algorithm() -> (r: DeltaAlgorithm)
    ensures
        r == DeltaAlgorithm::Simple,
{
    DeltaAlgorithm::Simple
}

/// The settings of a store. The similarity threshold is an exact fraction in `[0, 1]`.
#[derive(Debug, Clone)]
pub struct Config {
    pub storage_path: String,
    pub index_mode: IndexMode,
    pub multithread: usize,
    pub compression_algorithm: CompressionAlgorithm,
    pub compression_level: u32,
    pub enable_deduplication: bool,
    pub enable_delta_compression: bool,
    pub similarity_threshold: Score,
    pub delta_algorithm: DeltaAlgorithm,
}

/// A configuration as plain values.
pub struct ConfigView {
    pub storage_path: Seq<char>,
    pub index_mode: IndexMode,
    pub multithread: usize,
    pub compression_algorithm: CompressionAlgorithm,
    pub compression_level: u32,
    pub enable_deduplication: bool,
    pub enable_delta_compression: bool,
    pub similarity_threshold: Score,
    pub delta_algorithm: DeltaAlgorithm,
}

impl View for Config {
    type V = ConfigView;

    open spec fn view(&self) -> ConfigView {
        ConfigView {
            storage_path: self.storage_path@,
            index_mode: self.index_mode,
            multithread: self.multithread,
            compression_algorithm: self.compression_algorithm,
            compression_level: self.compression_level,
            enable_deduplication: self.enable_deduplication,
            enable_delta_compression: self.enable_delta_compression,
            similarity_threshold: self.similarity_threshold,
            delta_algorithm: self.delta_algorithm,
        }
    }
}

/// What a boolean setting's text denotes: exactly `true` or `false`.
pub open spec fn bool_text(value: Seq<char>) -> Option<bool> {
    if value == "true"@ {
        Some(true)
    } else if value == "false"@ {
        Some(false)
    } else {
        None
    }
}

/// The configuration that setting `key` to `value` makes of `c`, or the error.
pub open spec fn setting_applied(c: ConfigView, key: Seq<char>, value: Seq<char>) -> Result<
    ConfigView,
    StowrError,
> {
    if key == "storage.path"@ {
        Ok(ConfigView { storage_path: value, ..c })
    } else if key == "index.mode"@ {
        match index_mode_named(lower_of(value)) {
            Ok(m) => Ok(ConfigView { index_mode: m, ..c }),
            Err(e) => Err(e),
        }
    } else if key == "multithread"@ {
        match unsigned_text(value) {
            Some(n) => if 0 < n <= usize::MAX {
                Ok(ConfigView { multithread: n as usize, ..c })
            } else {
                Err(StowrError::InvalidInput)
            },
            None => Err(StowrError::InvalidInput),
        }
    } else if key == "compression.algorithm"@ {
        match algorithm_named(lower_of(value)) {
            Ok(a) => Ok(
                ConfigView { compression_algorithm: a, compression_level: a.spec_default_level(), ..c },
            ),
            Err(e) => Err(e),
        }
    } else if key == "compression.level"@ {
        match unsigned_text(value) {
            Some(n) => if n > u32::MAX {
                Err(StowrError::InvalidInput)
            } else {
                match c.compression_algorithm.spec_validate_level(n as u32) {
                    Ok(l) => Ok(ConfigView { compression_level: l, ..c }),
                    Err(e) => Err(e),
                }
            },
            None => Err(StowrError::InvalidInput),
        }
    } else if key == "dedup.enable"@ {
        match bool_text(value) {
            Some(b) => Ok(ConfigView { enable_deduplication: b, ..c }),
            None => Err(StowrError::InvalidInput),
        }
    } else if key == "delta.enable"@ {
        match bool_text(value) {
            Some(b) => Ok(ConfigView { enable_delta_compression: b, ..c }),
            None => Err(StowrError::InvalidInput),
        }
    } else if key == "delta.similarity_threshold"@ {
        match fraction_text(value) {
            Some(f) => if f.0 <= f.1 {
                Ok(ConfigView { similarity_threshold: Score { num: f.0 as u64, den: f.1 as u64 }, ..c })
            } else {
                Err(StowrError::InvalidInput)
            },
            None => Err(StowrError::InvalidInput),
        }
    } else if key == "delta.algorithm"@ {
        match delta_algorithm_named(lower_of(value)) {
            Ok(a) => Ok(ConfigView { delta_algorithm: a, ..c }),
            Err(e) => Err(e),
        }
    } else {
        Err(StowrError::UnknownKey)
    }
}

impl Config {
    /// Well-formed: the threshold is a fraction in `[0, 1]` with a denominator of at most
    /// `10^18`, and the level is one the codec accepts.
    pub open spec fn wf(&self) -> bool {
        &&& 0 < self.similarity_threshold.den <= 1_000_000_000_000_000_000
        &&& self.similarity_threshold.num <= self.similarity_threshold.den
        &&& self.compression_algorithm.spec_validate_level(self.compression_level) == Ok::<u32, StowrError>(
            self.compression_level,
        )
    }

    /// The default settings: storage under `.stowr/storage`, automatic index choice, one
    /// thread, gzip at level 6, dedup on, delta off, threshold 7/10, simple deltas.
    pub fn default() -> (r: Config)
        ensures
            r.wf(),
            r.storage_path@ == ".stowr/storage"@,
            r.index_mode == IndexMode::Auto,
            r.multithread == 1,
            r.compression_algorithm == CompressionAlgorithm::Gzip,
            r.compression_level == 6,
            r.enable_deduplication,
            !r.enable_delta_compression,
            r.similarity_threshold == (Score { num: 7, den: 10 }),
            r.delta_algorithm == DeltaAlgorithm::Simple,
    {
        Config {
            storage_path: owned(".stowr/storage"),
            index_mode: IndexMode::Auto,
            multithread: default_multithread(),
            compression_algorithm: default_compression_algorithm(),
            compression_level: default_compression_level(),
            enable_deduplication: default_enable_deduplication(),
            enable_delta_compression: default_enable_delta_compression(),
            similarity_threshold: default_similarity_threshold(),
            delta_algorithm: default_delta_algorithm(),
        }
    }

    /// Sets the value of one configuration key; an unknown key or a bad value leaves the
    /// configuration as it was.
    pub fn set(&mut self, key: &str, value: &str) -> (r: Result<(), StowrError>)
        requires
            old(self).wf(),
        ensures
            final(self).wf(),
            match setting_applied(old(self)@, key@, value@) {
                Ok(c) => r is Ok && final(self)@ == c,
                Err(e) => r == Err::<(), StowrError>(e) && final(self)@ == old(self)@,
            },
    {
        if same_text(key, "storage.path") {
            self.storage_path = owned(value);
            Ok(())
        } else if same_text(key, "index.mode") {
            let lower = lowercase(value);
            let m = IndexMode::from_lowercase_name(lower.as_str())?;
            self.index_mode = m;
            Ok(())
        } else if same_text(key, "multithread") {
            let cs = chars_of(value);
            match parse_unsigned(cs.as_slice(), usize::MAX as u64) {
                Some(n) => {
                    if n == 0 {
                        return Err(StowrError::InvalidInput);
                    }
                    self.multithread = n as usize;
                    Ok(())
                },
                None => Err(StowrError::InvalidInput),
            }
        } else if same_text(key, "compression.algorithm") {
            let a = CompressionAlgorithm::from_str(value)?;
            self.compression_algorithm = a;
            self.compression_level = a.default_level();
            Ok(())
        } else if same_text(key, "compression.level") {
            let cs = chars_of(value);
            match parse_unsigned(cs.as_slice(), u32::MAX as u64) {
                Some(n) => {
                    let l = self.compression_algorithm.validate_level(n as u32)?;
                    self.compression_level = l;
                    Ok(())
                },
                None => Err(StowrError::InvalidInput),
            }
        } else if same_text(key, "dedup.enable") {
            let b = parse_bool(value)?;
            self.enable_deduplication = b;
            Ok(())
        } else if same_text(key, "delta.enable") {
            let b = parse_bool(value)?;
            self.enable_delta_compression = b;
            Ok(())
        } else if same_text(key, "delta.similarity_threshold") {
            let cs = chars_of(value);
            match parse_unit_fraction(cs.as_slice()) {
                Some(f) => {
                    self.similarity_threshold = Score { num: f.0, den: f.1 };
                    Ok(())
                },
                None => Err(StowrError::InvalidInput),
            }
        } else if same_text(key, "delta.algorithm") {
            let a = DeltaAlgorithm::from_str(value)?;
            self.delta_algorithm = a;
            Ok(())
        } else {
            Err(StowrError::UnknownKey)
        }
    }

    /// Every key with its current value as text, in a fixed order.
    pub fn list(&self) -> (r: Vec<(String, String)>)
        requires
            self.wf(),
        ensures
            r@.len() == 9,
            r@[0].0@ == "storage.path"@ && r@[0].1@ == self.storage_path@,
            r@[1].0@ == "index.mode"@ && r@[1].1@ == self.index_mode.spec_name(),
            r@[2].0@ == "multithread"@ && r@[2].1@ == decimal_text(self.multithread as nat),
            r@[3].0@ == "compression.algorithm"@ && r@[3].1@
                == self.compression_algorithm.spec_name(),
            r@[4].0@ == "compression.level"@ && r@[4].1@ == decimal_text(
                self.compression_level as nat,
            ),
            r@[5].0@ == "dedup.enable"@ && r@[5].1@ == bool_name(self.enable_deduplication),
            r@[6].0@ == "delta.enable"@ && r@[6].1@ == bool_name(self.enable_delta_compression),
            r@[7].0@ == "delta.similarity_threshold"@ && r@[7].1@ == ratio_text(
                self.similarity_threshold.num as nat,
                self.similarity_threshold.den as nat,
            ),
            r@[8].0@ == "delta.algorithm"@ && r@[8].1@ == self.delta_algorithm.spec_name(),
    {
        let mut v: Vec<(String, String)> = Vec::new();
        v.push((owned("storage.path"), owned(self.storage_path.as_str())));
        v.push((owned("index.mode"), self.index_mode.to_string()));
        v.push((owned("multithread"), decimal_string(self.multithread as u64)));
        v.push((owned("compression.algorithm"), self.compression_algorithm.to_string()));
        v.push((owned("compression.level"), decimal_string(self.compression_level as u64)));
        v.push((owned("dedup.enable"), bool_string(self.enable_deduplication)));
        v.push((owned("delta.enable"), bool_string(self.enable_delta_compression)));
        v.push(
            (
                owned("delta.similarity_threshold"),
                ratio_string(self.similarity_threshold.num, self.similarity_threshold.den),
            ),
        );
        v.push((owned("delta.algorithm"), self.delta_algorithm.to_string()));
        v
    }
}

/// `true` or `false` as text.
pub open spec fn bool_name(b: bool) -> Seq<char> {
    if b {
        "true"@
    } else {
        "false"@
    }
}

fn bool_string(b: bool) -> (r: String)
    ensures
        r@ == bool_name(b),
{
    if b {
        owned("true")
    } else {
        owned("false")
    }
}

/// Reads `true` or `false`.
pub fn parse_bool(value: &str) -> (r: Result<bool, StowrError>)
    ensures
        match bool_text(value@) {
            Some(b) => r == Ok::<bool, StowrError>(b),
            None => r == Err::<bool, StowrError>(StowrError::InvalidInput),
        },
{
    if same_text(value, "true") {
        Ok(true)
    } else if same_text(value, "false") {
        Ok(false)
    } else {
        Err(StowrError::InvalidInput)
    }
}

} // verus!
