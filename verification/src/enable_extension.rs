//! `enable …;` extensions in WGSL.
//!
//! The focal point of this module is the [`EnableExtension`] API.

use vstd::prelude::*;
use vstd::string::StringSliceAdditionalSpecFns;

verus! {

/// A span of source text, by byte offsets.
#[derive(Clone, Copy, PartialEq, Eq, Structural, Debug)]
pub struct Span {
    pub start: u32,
    pub end: u32,
}

/// A parse error: the word at `Span` names no known enable extension.
#[derive(Clone, Copy, PartialEq, Eq, Structural, Debug)]
pub struct UnknownEnableExtensionError {
    pub span: Span,
}

/// Tracks the status of every enable extension known here.
#[derive(Clone, Copy, PartialEq, Eq, Structural, Debug)]
pub struct EnableExtensions {
    pub definitely_not_standard: bool,
}

impl EnableExtensions {
    /// The set with nothing requested.
    pub fn empty() -> (r: Self)
        ensures
            !r.definitely_not_standard,
    {
        EnableExtensions { definitely_not_standard: false }
    }

    /// Add an enable extension to the set requested by a module.
    pub fn add(&mut self, ext: ImplementedEnableExtension)
        ensures
            *final(self) == match ext {
                ImplementedEnableExtension::DefinitelyNotStandard => EnableExtensions {
                    definitely_not_standard: true,
                    ..*old(self)
                },
            },
    {
        match ext {
            ImplementedEnableExtension::DefinitelyNotStandard => {
                self.definitely_not_standard = true;
            },
        }
    }

    /// Query whether an enable extension tracked here has been requested.
    pub fn contains(&self, ext: ImplementedEnableExtension) -> (r: bool)
        ensures
            r == match ext {
                ImplementedEnableExtension::DefinitelyNotStandard => self.definitely_not_standard,
            },
    {
        match ext {
            ImplementedEnableExtension::DefinitelyNotStandard => self.definitely_not_standard,
        }
    }
}

impl Default for EnableExtensions {
    fn default() -> (r: Self)
        ensures
            !r.definitely_not_standard,
    {
        EnableExtensions { definitely_not_standard: false }
    }
}

/// A shader language extension not guaranteed to be present in all
/// environments.
#[derive(Clone, Copy, PartialEq, Eq, Structural, Debug)]
pub enum EnableExtension {
    Implemented(ImplementedEnableExtension),
    Unimplemented(UnimplementedEnableExtension),
}

/// The bytes of the sentinel word `f16`.
pub open spec fn f16_bytes() -> Seq<u8> {
    seq![102u8, 49u8, 54u8]
}

/// The bytes of the sentinel word `clip_distances`.
pub open spec fn clip_distances_bytes() -> Seq<u8> {
    seq![99u8, 108u8, 105u8, 112u8, 95u8, 100u8, 105u8, 115u8, 116u8, 97u8, 110u8, 99u8, 101u8,
        115u8]
}

/// The bytes of the sentinel word `dual_source_blending`.
pub open spec fn dual_source_blending_bytes() -> Seq<u8> {
    seq![100u8, 117u8, 97u8, 108u8, 95u8, 115u8, 111u8, 117u8, 114u8, 99u8, 101u8, 95u8, 98u8,
        108u8, 101u8, 110u8, 100u8, 105u8, 110u8, 103u8]
}

/// True when the byte slice spells out `pat`.
fn slice_matches(b: &[u8], pat: &Vec<u8>) -> (r: bool)
    ensures
        r <==> b@ == pat@,
{
    if b.len() != pat.len() {
        return false;
    }
    let mut i: usize = 0;
    while i < pat.len()
        invariant
            b@.len() == pat@.len(),
            i <= pat@.len(),
            forall|k: int| 0 <= k < i ==> b@[k] == pat@[k],
        decreases pat@.len() - i,
    {
        if b[i] != pat[i] {
            return false;
        }
        i = i + 1;
    }
    proof {
        assert(b@ =~= pat@);
    }
    true
}

fn f16_vec() -> (v: Vec<u8>)
    ensures
        v@ == f16_bytes(),
{
    let mut v: Vec<u8> = Vec::new();
    v.push(102);
    v.push(49);
    v.push(54);
    proof {
        assert(v@ =~= f16_bytes());
    }
    v
}

fn clip_distances_vec() -> (v: Vec<u8>)
    ensures
        v@ == clip_distances_bytes(),
{
    let mut v: Vec<u8> = Vec::new();
    v.push(99);
    v.push(108);
    v.push(105);
    v.push(112);
    v.push(95);
    v.push(100);
    v.push(105);
    v.push(115);
    v.push(116);
    v.push(97);
    v.push(110);
    v.push(99);
    v.push(101);
    v.push(115);
    proof {
        assert(v@ =~= clip_distances_bytes());
    }
    v
}

fn dual_source_blending_vec() -> (v: Vec<u8>)
    ensures
        v@ == dual_source_blending_bytes(),
{
    let mut v: Vec<u8> = Vec::new();
    v.push(100);
    v.push(117);
    v.push(97);
    v.push(108);
    v.push(95);
    v.push(115);
    v.push(111);
    v.push(117);
    v.push(114);
    v.push(99);
    v.push(101);
    v.push(95);
    v.push(98);
    v.push(108);
    v.push(101);
    v.push(110);
    v.push(100);
    v.push(105);
    v.push(110);
    v.push(103);
    proof {
        assert(v@ =~= dual_source_blending_bytes());
    }
    v
}

impl EnableExtension {
    /// Convert from a sentinel word in WGSL into its associated
    /// [`EnableExtension`], if possible.
    pub fn from_ident(word: &str, span: Span) -> (r: Result<Self, UnknownEnableExtensionError>)
        ensures
            match r {
                Ok(ext) => if word.spec_bytes() == f16_bytes() {
                    ext == EnableExtension::Unimplemented(UnimplementedEnableExtension::F16)
                } else if word.spec_bytes() == clip_distances_bytes() {
                    ext == EnableExtension::Unimplemented(
                        UnimplementedEnableExtension::ClipDistances,
                    )
                } else {
                    &&& word.spec_bytes() == dual_source_blending_bytes()
                    &&& ext == EnableExtension::Unimplemented(
                        UnimplementedEnableExtension::DualSourceBlending,
                    )
                },
                Err(e) => {
                    &&& word.spec_bytes() != f16_bytes()
                    &&& word.spec_bytes() != clip_distances_bytes()
                    &&& word.spec_bytes() != dual_source_blending_bytes()
                    &&& e == (UnknownEnableExtensionError { span })
                },
            },
    {
        let b = word.as_bytes();
        let pat = f16_vec();
        if slice_matches(b, &pat) {
            return Ok(EnableExtension::Unimplemented(UnimplementedEnableExtension::F16));
        }
        let pat = clip_distances_vec();
        if slice_matches(b, &pat) {
            return Ok(
                EnableExtension::Unimplemented(UnimplementedEnableExtension::ClipDistances),
            );
        }
        let pat = dual_source_blending_vec();
        if slice_matches(b, &pat) {
            return Ok(
                EnableExtension::Unimplemented(UnimplementedEnableExtension::DualSourceBlending),
            );
        }
        Err(UnknownEnableExtensionError { span })
    }

    /// Maps this [`EnableExtension`] into the sentinel word associated
    /// with it in WGSL.
    pub fn to_ident(self) -> (r: &'static str)
        ensures
            match self {
                EnableExtension::Unimplemented(UnimplementedEnableExtension::F16) => r@ == "f16"@,
                EnableExtension::Unimplemented(UnimplementedEnableExtension::ClipDistances) => r@
                    == "clip_distances"@,
                EnableExtension::Unimplemented(
                    UnimplementedEnableExtension::DualSourceBlending,
                ) => r@ == "dual_source_blending"@,
                EnableExtension::Implemented(ImplementedEnableExtension::DefinitelyNotStandard) =>
                    r@ == "definitely_not_standard"@,
            },
    {
        match self {
            EnableExtension::Implemented(kind) => match kind {
                ImplementedEnableExtension::DefinitelyNotStandard => "definitely_not_standard",
            },
            EnableExtension::Unimplemented(kind) => match kind {
                UnimplementedEnableExtension::F16 => "f16",
                UnimplementedEnableExtension::ClipDistances => "clip_distances",
                UnimplementedEnableExtension::DualSourceBlending => "dual_source_blending",
            },
        }
    }
}

/// A variant of [`EnableExtension::Implemented`].
#[derive(Clone, Copy, PartialEq, Eq, Structural, Debug, Hash)]
pub enum ImplementedEnableExtension {
    DefinitelyNotStandard,
}

/// A variant of [`EnableExtension::Unimplemented`].
#[derive(Clone, Copy, PartialEq, Eq, Structural, Debug, Hash)]
pub enum UnimplementedEnableExtension {
    /// Enables `f16`/`half` primitive support in all shader languages.
    F16,
    /// Enables the `clip_distances` variable in WGSL.
    ClipDistances,
    /// Enables the `blend_src` attribute in WGSL.
    DualSourceBlending,
}

impl UnimplementedEnableExtension {
    /// The number of the issue tracking the extension's implementation.
    pub fn tracking_issue_num(self) -> (r: u16)
        ensures
            match self {
                UnimplementedEnableExtension::F16 => r == 4384,
                UnimplementedEnableExtension::ClipDistances => r == 6236,
                UnimplementedEnableExtension::DualSourceBlending => r == 6402,
            },
    {
        match self {
            UnimplementedEnableExtension::F16 => 4384,
            UnimplementedEnableExtension::ClipDistances => 6236,
            UnimplementedEnableExtension::DualSourceBlending => 6402,
        }
    }
}

} // verus!
