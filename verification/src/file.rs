//! Interpretation of the file-type probe's output: the bit width of a
//! binary, and the command-line option that selects or auto-detects it.

use vstd::prelude::*;

use crate::text;

verus! {

/// The address word width of a binary: 32 or 64 bits.
#[derive(Clone, Copy, PartialEq, Eq, Structural, Debug)]
pub enum ElfBitSize {
    Bit32,
    Bit64,
}

/// A probe output line that names neither width.
#[derive(Debug)]
pub struct ElfBitSizeParseError {
    pub text: String,
}

/// Reads the bit width from one line of a file-type probe's output: a line
/// naming `32-bit` means 32 bits, else one naming `64-bit` means 64 bits,
/// and a line naming neither is an error carrying that line.
pub fn parse_elf_bit_size_output(line: &str) -> (r: Result<ElfBitSize, ElfBitSizeParseError>)
    ensures
        text::spec_contains(line@, "32-bit"@) <==> r == Ok::<ElfBitSize, ElfBitSizeParseError>(
            ElfBitSize::Bit32,
        ),
        (!text::spec_contains(line@, "32-bit"@) && text::spec_contains(line@, "64-bit"@)) <==> r
            == Ok::<ElfBitSize, ElfBitSizeParseError>(ElfBitSize::Bit64),
        r is Err ==> !text::spec_contains(line@, "32-bit"@) && !text::spec_contains(
            line@,
            "64-bit"@,
        ) && r->Err_0.text@ == line@,
{
    if text::str_contains(line, "32-bit") {
        Ok(ElfBitSize::Bit32)
    } else if text::str_contains(line, "64-bit") {
        Ok(ElfBitSize::Bit64)
    } else {
        Err(ElfBitSizeParseError { text: line.to_owned() })
    }
}

/// The reason a bit-width option could not be resolved.
#[derive(Clone, Copy, PartialEq, Eq, Structural, Debug)]
pub enum ElfBitOptionError {
    /// The option names none of `32`, `64` and `auto`.
    UnknownOption,
    /// The option asks for auto-detection but no probe result is at hand.
    ProbeUnavailable,
}

/// Whether the bit-width option asks for auto-detection, so that a caller
/// knows to probe the target binary before resolving the option.
pub fn elf_bit_option_needs_probe(opt: &str) -> (r: bool)
    ensures
        r == (opt@ == "auto"@),
{
    opt.to_owned() == "auto".to_owned()
}

/// Resolves the `--bit` option to the 32-bit flag: `32` and `64` select the
/// width directly, and `auto` takes it from the probe result that the caller
/// obtained; any other option is rejected.
pub fn parse_elf_bit_option(opt: &str, probed: Option<ElfBitSize>) -> (r: Result<
    bool,
    ElfBitOptionError,
>)
    ensures
        opt@ == "32"@ ==> r == Ok::<bool, ElfBitOptionError>(true),
        opt@ == "64"@ ==> r == Ok::<bool, ElfBitOptionError>(false),
        opt@ == "auto"@ && probed == Some(ElfBitSize::Bit32) ==> r == Ok::<
            bool,
            ElfBitOptionError,
        >(true),
        opt@ == "auto"@ && probed == Some(ElfBitSize::Bit64) ==> r == Ok::<
            bool,
            ElfBitOptionError,
        >(false),
        opt@ == "auto"@ && probed is None ==> r == Err::<bool, ElfBitOptionError>(
            ElfBitOptionError::ProbeUnavailable,
        ),
        opt@ != "32"@ && opt@ != "64"@ && opt@ != "auto"@ ==> r == Err::<bool, ElfBitOptionError>(
            ElfBitOptionError::UnknownOption,
        ),
{
    proof {
        reveal_strlit("32");
        reveal_strlit("64");
        reveal_strlit("auto");
    }
    let o = opt.to_owned();
    let is32 = o == "32".to_owned();
    let is64 = o == "64".to_owned();
    let isauto = o == "auto".to_owned();
    proof {
        assert(is32 == (opt@ == "32"@));
        assert(is64 == (opt@ == "64"@));
        assert(isauto == (opt@ == "auto"@));
        assert("32"@ =~= seq!['3', '2']);
        assert("64"@ =~= seq!['6', '4']);
        assert("auto"@ =~= seq!['a', 'u', 't', 'o']);
    }
    if is32 {
        Ok(true)
    } else if is64 {
        Ok(false)
    } else if isauto {
        match probed {
            Some(ElfBitSize::Bit32) => Ok(true),
            Some(ElfBitSize::Bit64) => Ok(false),
            None => Err(ElfBitOptionError::ProbeUnavailable),
        }
    } else {
        Err(ElfBitOptionError::UnknownOption)
    }
}

} // verus!
