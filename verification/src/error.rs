use vstd::prelude::*;

verus! {

/// A packing option that must be given when no saved header is at hand.
#[derive(Clone, Copy, Debug, PartialEq, Eq)]
pub enum RkfwOption {
    Version,
    Code,
    Timestamp,
    Chip,
}

/// Why a number field did not parse, as `from_str_radix` reports it.
#[derive(Clone, Copy, Debug, PartialEq, Eq)]
pub enum NumberError {
    /// The field is empty.
    Empty,
    /// A character is not a digit of the radix.
    InvalidDigit,
    /// The value does not fit the integer type.
    PosOverflow,
}

/// The ways in which the library refuses its input.
#[derive(Clone, Debug, PartialEq, Eq)]
pub enum Error {
    /// Fewer than 2048 bytes (the count given) were handed to the RKAF header decoder.
    HeaderTooShort(usize),
    /// A decoded RKAF header lists more than the 16 available slots (the count given).
    TooManyPartitions(u32),
    /// A header to be encoded lists more than 16 slots (the count given).
    TooManyPartitionsToEncode(u32),
    /// A package-file gives more than 16 entries a header slot.
    TooManyPackageEntries,
    /// Fewer member sizes were given (the first count) than the package
    /// lays out members (the second).
    MissingMemberSizes(u64, u64),
    /// The image would end beyond the largest 64-bit offset.
    ImageTooLarge,
    /// The chip name (given) belongs to no known RockChip family.
    UnsupportedChip(String),
    /// A version string is not of the form major.minor.build.
    VersionFormat,
    /// The major version is not a number from 0 to 255.
    InvalidMajorVersion,
    /// The minor version is not a number from 0 to 255.
    InvalidMinorVersion,
    /// The build number is not a number from 0 to 65535.
    InvalidBuildNumber,
    /// The code field (given without its "0x" prefixes) is not a 32-bit
    /// hexadecimal number.
    InvalidCodeField(String),
    /// The timestamp is outside the range of representable dates.
    InvalidTimestamp,
    /// A packing option is missing and the input directory (given) holds no
    /// saved header that provides it.
    MissingOption(RkfwOption, String),
    /// The BOOT image (of the size given) does not fit the 32-bit offset and size fields.
    BootTooLarge(u64),
    /// A line of the partition metadata is not valid UTF-8.
    MetadataNotText,
    /// A flash size or offset in the partition metadata is not a 32-bit
    /// hexadecimal number.
    InvalidMetadataNumber(NumberError),
    /// The package-file lists no partitions.
    NoPackageEntries,
    /// No partition metadata was found.
    MissingPartitionMetadata,
    /// The saved RKAF header (at the path given) cannot be used as a template.
    InvalidHeaderTemplate(String),
    /// The RKAF header does not carry the "RKAF" magic.
    InvalidMagic,
    /// A partition's physical offset does not fit in 64 bits.
    PartitionOffsetOverflow,
    /// A partition's data range does not fit in 64 bits.
    PartitionDataOverflow,
    /// A partition's allocation does not fit in 64 bits.
    PartitionAllocationOverflow,
    /// A partition's data (offset and size given) extends past the end of
    /// the container (given).
    PartitionOutsideContainer(u64, u64, u64),
}

/// An error with its text taken by its characters.
pub enum ErrorView {
    HeaderTooShort(usize),
    TooManyPartitions(u32),
    TooManyPartitionsToEncode(u32),
    TooManyPackageEntries,
    MissingMemberSizes(u64, u64),
    ImageTooLarge,
    UnsupportedChip(Seq<char>),
    VersionFormat,
    InvalidMajorVersion,
    InvalidMinorVersion,
    InvalidBuildNumber,
    InvalidCodeField(Seq<char>),
    InvalidTimestamp,
    MissingOption(RkfwOption, Seq<char>),
    BootTooLarge(u64),
    MetadataNotText,
    InvalidMetadataNumber(NumberError),
    NoPackageEntries,
    MissingPartitionMetadata,
    InvalidHeaderTemplate(Seq<char>),
    InvalidMagic,
    PartitionOffsetOverflow,
    PartitionDataOverflow,
    PartitionAllocationOverflow,
    PartitionOutsideContainer(u64, u64, u64),
}

impl View for Error {
    type V = ErrorView;

    open spec fn view(&self) -> ErrorView {
        match self {
            Error::HeaderTooShort(n) => ErrorView::HeaderTooShort(*n),
            Error::TooManyPartitions(n) => ErrorView::TooManyPartitions(*n),
            Error::TooManyPartitionsToEncode(n) => ErrorView::TooManyPartitionsToEncode(*n),
            Error::TooManyPackageEntries => ErrorView::TooManyPackageEntries,
            Error::MissingMemberSizes(g, n) => ErrorView::MissingMemberSizes(*g, *n),
            Error::ImageTooLarge => ErrorView::ImageTooLarge,
            Error::UnsupportedChip(s) => ErrorView::UnsupportedChip(s@),
            Error::VersionFormat => ErrorView::VersionFormat,
            Error::InvalidMajorVersion => ErrorView::InvalidMajorVersion,
            Error::InvalidMinorVersion => ErrorView::InvalidMinorVersion,
            Error::InvalidBuildNumber => ErrorView::InvalidBuildNumber,
            Error::InvalidCodeField(s) => ErrorView::InvalidCodeField(s@),
            Error::InvalidTimestamp => ErrorView::InvalidTimestamp,
            Error::MissingOption(o, d) => ErrorView::MissingOption(*o, d@),
            Error::BootTooLarge(n) => ErrorView::BootTooLarge(*n),
            Error::MetadataNotText => ErrorView::MetadataNotText,
            Error::InvalidMetadataNumber(k) => ErrorView::InvalidMetadataNumber(*k),
            Error::NoPackageEntries => ErrorView::NoPackageEntries,
            Error::MissingPartitionMetadata => ErrorView::MissingPartitionMetadata,
            Error::InvalidHeaderTemplate(s) => ErrorView::InvalidHeaderTemplate(s@),
            Error::InvalidMagic => ErrorView::InvalidMagic,
            Error::PartitionOffsetOverflow => ErrorView::PartitionOffsetOverflow,
            Error::PartitionDataOverflow => ErrorView::PartitionDataOverflow,
            Error::PartitionAllocationOverflow => ErrorView::PartitionAllocationOverflow,
            Error::PartitionOutsideContainer(o, n, e) => ErrorView::PartitionOutsideContainer(*o, *n, *e),
        }
    }
}

/// The decimal digit character of a value below 10.
pub open spec fn digit_char(d: nat) -> char {
    (48 + d) as char
}

/// The decimal text of a number, as `{}` writes it.
pub open spec fn decimal_text(n: nat) -> Seq<char>
    decreases n,
{
    if n < 10 {
        seq![digit_char(n)]
    } else {
        decimal_text(n / 10).push(digit_char(n % 10))
    }
}

/// The name of a packing option's command-line flag.
pub open spec fn option_flag(o: RkfwOption) -> Seq<char> {
    match o {
        RkfwOption::Version => "version"@,
        RkfwOption::Code => "code"@,
        RkfwOption::Timestamp => "timestamp"@,
        RkfwOption::Chip => "chip"@,
    }
}

/// The message that `from_str_radix` gives for a number that does not parse.
pub open spec fn number_error_text(k: NumberError) -> Seq<char> {
    match k {
        NumberError::Empty => "cannot parse integer from empty string"@,
        NumberError::InvalidDigit => "invalid digit found in string"@,
        NumberError::PosOverflow => "number too large to fit in target type"@,
    }
}

/// The message that describes an error.
pub open spec fn error_text(e: ErrorView) -> Seq<char> {
    match e {
        ErrorView::HeaderTooShort(n) => "RKAF header requires at least 2048 bytes, got "@
            + decimal_text(n as nat),
        ErrorView::TooManyPartitions(n) => "RKAF header contains "@ + decimal_text(n as nat)
            + " partitions, maximum is 16"@,
        ErrorView::TooManyPartitionsToEncode(n) => "cannot encode "@ + decimal_text(n as nat)
            + " RKAF partitions, maximum is 16"@,
        ErrorView::TooManyPackageEntries => "Too many partitions in package-file (maximum is 16)"@,
        ErrorView::MissingMemberSizes(g, n) => "sizes given for "@ + decimal_text(g as nat)
            + " members, "@ + decimal_text(n as nat) + " needed"@,
        ErrorView::ImageTooLarge => "image would exceed the largest representable size"@,
        ErrorView::UnsupportedChip(c) => "Unsupported chip family: "@ + c,
        ErrorView::VersionFormat => "Version must be in format: major.minor.build (e.g., 8.1.0)"@,
        ErrorView::InvalidMajorVersion => "Invalid major version"@,
        ErrorView::InvalidMinorVersion => "Invalid minor version"@,
        ErrorView::InvalidBuildNumber => "Invalid build number"@,
        ErrorView::InvalidCodeField(c) => "Invalid hex value for code field: "@ + c,
        ErrorView::InvalidTimestamp => "Invalid timestamp"@,
        ErrorView::MissingOption(o, d) => "--"@ + option_flag(o)
            + " is required because no rkfw-header.bin template was found in "@ + d,
        ErrorView::BootTooLarge(n) => "BOOT is too large ("@ + decimal_text(n as nat) + " bytes)"@,
        ErrorView::MetadataNotText => "stream did not contain valid UTF-8"@,
        ErrorView::InvalidMetadataNumber(k) => number_error_text(k),
        ErrorView::NoPackageEntries => "No files found in package-file"@,
        ErrorView::MissingPartitionMetadata => "Missing partition metadata"@,
        ErrorView::InvalidHeaderTemplate(p) => "Invalid RKAF header template: "@ + p,
        ErrorView::InvalidMagic => "Invalid header magic id"@,
        ErrorView::PartitionOffsetOverflow => "partition offset overflows u64"@,
        ErrorView::PartitionDataOverflow => "partition data range overflows u64"@,
        ErrorView::PartitionAllocationOverflow => "partition allocation range overflows u64"@,
        ErrorView::PartitionOutsideContainer(o, n, e) => "Partition range exceeds container: offset "@
            + decimal_text(o as nat) + ", size "@ + decimal_text(n as nat) + ", container end "@
            + decimal_text(e as nat),
    }
}

/// Append the characters of `s` to `out`.
pub fn push_str_chars(out: &mut Vec<char>, s: &str)
    ensures
        final(out)@ == old(out)@ + s@,
{
    let chars = crate::text::str_chars(s);
    let mut i: usize = 0;
    while i < chars.len()
        invariant
            0 <= i <= chars@.len(),
            chars@ == s@,
            out@ == old(out)@ + chars@.subrange(0, i as int),
        decreases chars@.len() - i,
    {
        out.push(chars[i]);
        i = i + 1;
        assert(out@ =~= old(out)@ + chars@.subrange(0, i as int));
    }
    assert(chars@.subrange(0, i as int) =~= chars@);
}

/// Append the decimal text of `n` to `out`.
pub fn push_decimal(out: &mut Vec<char>, n: u64)
    ensures
        final(out)@ == old(out)@ + decimal_text(n as nat),
    decreases n,
{
    if n >= 10 {
        push_decimal(out, n / 10);
    }
    let d = (n % 10) as u8;
    out.push((48u8 + d) as char);
    assert(final(out)@ =~= old(out)@ + decimal_text(n as nat));
}

impl Error {
    /// The message that describes this error.
    pub fn message(&self) -> (text: String)
        ensures
            text@ == error_text(self@),
    {
        let mut out: Vec<char> = Vec::new();
        match self {
            Error::HeaderTooShort(n) => {
                push_str_chars(&mut out, "RKAF header requires at least 2048 bytes, got ");
                push_decimal(&mut out, *n as u64);
            },
            Error::TooManyPartitions(n) => {
                push_str_chars(&mut out, "RKAF header contains ");
                push_decimal(&mut out, *n as u64);
                push_str_chars(&mut out, " partitions, maximum is 16");
            },
            Error::TooManyPartitionsToEncode(n) => {
                push_str_chars(&mut out, "cannot encode ");
                push_decimal(&mut out, *n as u64);
                push_str_chars(&mut out, " RKAF partitions, maximum is 16");
            },
            Error::TooManyPackageEntries => {
                push_str_chars(&mut out, "Too many partitions in package-file (maximum is 16)");
            },
            Error::MissingMemberSizes(g, n) => {
                push_str_chars(&mut out, "sizes given for ");
                push_decimal(&mut out, *g);
                push_str_chars(&mut out, " members, ");
                push_decimal(&mut out, *n);
                push_str_chars(&mut out, " needed");
            },
            Error::ImageTooLarge => {
                push_str_chars(&mut out, "image would exceed the largest representable size");
            },
            Error::UnsupportedChip(c) => {
                push_str_chars(&mut out, "Unsupported chip family: ");
                push_str_chars(&mut out, c.as_str());
            },
            Error::VersionFormat => {
                push_str_chars(&mut out, "Version must be in format: major.minor.build (e.g., 8.1.0)");
            },
            Error::InvalidMajorVersion => {
                push_str_chars(&mut out, "Invalid major version");
            },
            Error::InvalidMinorVersion => {
                push_str_chars(&mut out, "Invalid minor version");
            },
            Error::InvalidBuildNumber => {
                push_str_chars(&mut out, "Invalid build number");
            },
            Error::InvalidCodeField(c) => {
                push_str_chars(&mut out, "Invalid hex value for code field: ");
                push_str_chars(&mut out, c.as_str());
            },
            Error::InvalidTimestamp => {
                push_str_chars(&mut out, "Invalid timestamp");
            },
            Error::MissingOption(o, d) => {
                push_str_chars(&mut out, "--");
                match o {
                    RkfwOption::Version => push_str_chars(&mut out, "version"),
                    RkfwOption::Code => push_str_chars(&mut out, "code"),
                    RkfwOption::Timestamp => push_str_chars(&mut out, "timestamp"),
                    RkfwOption::Chip => push_str_chars(&mut out, "chip"),
                }
                push_str_chars(&mut out, " is required because no rkfw-header.bin template was found in ");
                push_str_chars(&mut out, d.as_str());
            },
            Error::BootTooLarge(n) => {
                push_str_chars(&mut out, "BOOT is too large (");
                push_decimal(&mut out, *n);
                push_str_chars(&mut out, " bytes)");
            },
            Error::MetadataNotText => {
                push_str_chars(&mut out, "stream did not contain valid UTF-8");
            },
            Error::InvalidMetadataNumber(k) => {
                match k {
                    NumberError::Empty => push_str_chars(&mut out, "cannot parse integer from empty string"),
                    NumberError::InvalidDigit => push_str_chars(&mut out, "invalid digit found in string"),
                    NumberError::PosOverflow => push_str_chars(&mut out, "number too large to fit in target type"),
                }
            },
            Error::NoPackageEntries => {
                push_str_chars(&mut out, "No files found in package-file");
            },
            Error::MissingPartitionMetadata => {
                push_str_chars(&mut out, "Missing partition metadata");
            },
            Error::InvalidHeaderTemplate(p) => {
                push_str_chars(&mut out, "Invalid RKAF header template: ");
                push_str_chars(&mut out, p.as_str());
            },
            Error::InvalidMagic => {
                push_str_chars(&mut out, "Invalid header magic id");
            },
            Error::PartitionOffsetOverflow => {
                push_str_chars(&mut out, "partition offset overflows u64");
            },
            Error::PartitionDataOverflow => {
                push_str_chars(&mut out, "partition data range overflows u64");
            },
            Error::PartitionAllocationOverflow => {
                push_str_chars(&mut out, "partition allocation range overflows u64");
            },
            Error::PartitionOutsideContainer(o, n, e) => {
                push_str_chars(&mut out, "Partition range exceeds container: offset ");
                push_decimal(&mut out, *o);
                push_str_chars(&mut out, ", size ");
                push_decimal(&mut out, *n);
                push_str_chars(&mut out, ", container end ");
                push_decimal(&mut out, *e);
            },
        }
        crate::chip::string_from_chars(out.as_slice())
    }
}

} // verus!
