//! Reading typed values out of text by a template: the inverse of formatting.
//!
//! A template such as `"{} is {} years old"` is parsed into literal and
//! capture segments, bound to a list of rules (a pattern and the type its
//! match is read as), and compiled once into a [`Scanner`]. The scanner then
//! reads values from buffered input as often as wanted.
use vstd::prelude::*;

pub mod bind;
pub mod engine;
pub mod error;
pub mod partial_result;
pub mod reader;
pub mod rulelist;
pub mod rules;
pub mod scan;
pub mod scanner;
pub mod template;
pub mod utf8;
pub mod values;

pub use bind::{BindError, ResolvedSegment, ScanPlan, bind};
pub use engine::{CompiledPattern, advance_from_regex, match_literal, match_regex};
pub use error::{Error, PatternError, ScanError, Utf8Error};
pub use partial_result::PartialResult;
pub use reader::{ByteReader, read_line};
pub use rulelist::{RuleListError, parse_args, parse_rule_list};
pub use rules::{Arg, ArgError, Binary, Hex, IntKind, Octal, Radix, Rule, RuleList, ValueType, default_pattern};
pub use scan::{DefaultScan, Scan, default_regex};
pub use scanner::{BuildError, Scanner};
pub use template::{Capture, CapturePos, CaptureRule, Segment, TemplateError, parse_format_string};
pub use utf8::longest_utf8_prefix;
pub use values::{ParseValueError, Value, parse_int, parse_value};

verus! {

} // verus!
