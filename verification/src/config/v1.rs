//! Version 1 of the shard configuration.

use vstd::prelude::*;

use crate::config::loader::Loader;
use crate::sorted_map::SortedMap;
use crate::text::string_from_chars;

verus! {

broadcast use vstd::string::group_string_axioms;

/// A configuration for the shard system.
#[derive(Debug)]
pub struct ShardConfig {
    /// The version that this [`ShardConfig`] was defined at.
    pub version: u8,
    /// The templates within this [`ShardConfig`], by name.
    pub templates: SortedMap<ShardTemplate>,
    /// The matrixes defining the output instances.
    pub matrixes: Vec<ShardMatrix>,
}

/// A template to be used to generate instances within a matrix.
#[derive(Debug)]
pub struct ShardTemplate {
    /// The name that should be applied to the instance once created.
    pub name: String,
    /// The loader, if any.
    pub loader: Option<Loader>,
    /// The mods that this template requires, a map from key to list of mod descriptors.
    pub mods: SortedMap<Vec<String>>,
    /// The JVM arguments that should be applied to generated instances.
    pub jvm_args: Vec<String>,
}

/// An element of the shard matrix, which defines the instances to generate.
#[derive(Debug)]
pub struct ShardMatrix {
    /// The name of the template that this element uses.
    pub uses: String,
    /// The inputs passed to the template, each with the values it ranges over.
    pub with: SortedMap<Vec<String>>,
}

/// Why a configuration was rejected.
#[derive(Debug, PartialEq, Eq)]
pub enum ShardConfigError {
    /// The configuration declares a version that this library does not read.
    UnsupportedVersion(u8),
}

/// The only configuration version that is supported.
pub const SUPPORTED_VERSION: u8 = 1;

/// The decimal digits of `n`, without leading zeros.
pub open spec fn decimal(n: nat) -> Seq<char>
    decreases n,
{
    if n < 10 {
        seq![digit_char(n)]
    } else {
        decimal(n / 10).push(digit_char(n % 10))
    }
}

/// The character of a decimal digit.
pub open spec fn digit_char(d: nat) -> char {
    if d == 0 {
        '0'
    } else if d == 1 {
        '1'
    } else if d == 2 {
        '2'
    } else if d == 3 {
        '3'
    } else if d == 4 {
        '4'
    } else if d == 5 {
        '5'
    } else if d == 6 {
        '6'
    } else if d == 7 {
        '7'
    } else if d == 8 {
        '8'
    } else {
        '9'
    }
}

/// The character of the decimal digit `d`.
fn digit(d: u8) -> (c: char)
    requires
        d < 10,
    ensures
        c == digit_char(d as nat),
{
    if d == 0 {
        '0'
    } else if d == 1 {
        '1'
    } else if d == 2 {
        '2'
    } else if d == 3 {
        '3'
    } else if d == 4 {
        '4'
    } else if d == 5 {
        '5'
    } else if d == 6 {
        '6'
    } else if d == 7 {
        '7'
    } else if d == 8 {
        '8'
    } else {
        '9'
    }
}

/// The decimal text of `n`.
fn decimal_string(n: u8) -> (text: String)
    ensures
        text@ == decimal(n as nat),
{
    let mut chars: Vec<char> = Vec::new();
    let ghost m = n as nat;
    if n >= 100 {
        chars.push(digit(n / 100));
        chars.push(digit((n / 10) % 10));
        chars.push(digit(n % 10));
        assert(m / 10 / 10 == m / 100);
        assert(decimal(m / 100) == seq![digit_char(m / 100)]);
        assert(decimal(m / 10) == decimal(m / 100).push(digit_char((m / 10) % 10)));
        assert(decimal(m) == decimal(m / 10).push(digit_char(m % 10)));
    } else if n >= 10 {
        chars.push(digit(n / 10));
        chars.push(digit(n % 10));
        assert(decimal(m / 10) == seq![digit_char(m / 10)]);
        assert(decimal(m) == decimal(m / 10).push(digit_char(m % 10)));
    } else {
        chars.push(digit(n));
        assert(decimal(m) == seq![digit_char(m)]);
    }
    assert(chars@ =~= decimal(m));
    string_from_chars(chars.as_slice())
}

impl ShardConfig {
    /// Checks the version that a configuration file declares: only version 1 is
    /// read, any other is rejected.
    pub fn check_version(version: u8) -> (result: Result<(), ShardConfigError>)
        ensures
            result is Ok <==> version == SUPPORTED_VERSION,
            result is Err ==> result->Err_0 == ShardConfigError::UnsupportedVersion(version),
    {
        if version != SUPPORTED_VERSION {
            return Err(ShardConfigError::UnsupportedVersion(version));
        }
        Ok(())
    }
}

impl ShardConfigError {
    /// The message describing this error.
    pub fn to_string(&self) -> (message: String)
        ensures
            match self {
                ShardConfigError::UnsupportedVersion(v) => message@ == "unsupported config version: "@
                    + decimal(*v as nat),
            },
    {
        match self {
            ShardConfigError::UnsupportedVersion(version) => {
                let mut message = String::from_str("unsupported config version: ");
                let digits = decimal_string(*version);
                message.append(digits.as_str());
                message
            },
        }
    }
}

} // verus!
