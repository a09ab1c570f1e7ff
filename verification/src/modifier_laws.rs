//! The names of value modifiers.

use crate::ast::Modifier;
use crate::ast;
use vstd::prelude::*;

verus! {

/// How a modifier is written.
pub open spec fn modifier_name(m: Modifier) -> Seq<char> {
    match m {
        Modifier::Contains => "contains"@,
        Modifier::StartsWith => "startswith"@,
        Modifier::EndsWith => "endswith"@,
        Modifier::All => "all"@,
        Modifier::Base64 => "base64"@,
        Modifier::Base64Offset => "base64offset"@,
        Modifier::Wide => "wide"@,
        Modifier::Utf16be => "utf16be"@,
        Modifier::Utf16 => "utf16"@,
        Modifier::WinDash => "windash"@,
        Modifier::Re => "re"@,
        Modifier::Cidr => "cidr"@,
        Modifier::Cased => "cased"@,
        Modifier::Exists => "exists"@,
        Modifier::Expand => "expand"@,
        Modifier::FieldRef => "fieldref"@,
        Modifier::Gt => "gt"@,
        Modifier::Gte => "gte"@,
        Modifier::Lt => "lt"@,
        Modifier::Lte => "lte"@,
        Modifier::Neq => "neq"@,
        Modifier::IgnoreCase => "i"@,
        Modifier::Multiline => "m"@,
        Modifier::DotAll => "s"@,
        Modifier::Minute => "minute"@,
        Modifier::Hour => "hour"@,
        Modifier::Day => "day"@,
        Modifier::Week => "week"@,
        Modifier::Month => "month"@,
        Modifier::Year => "year"@,
    }
}

/// No two of the names are the same text.
proof fn lemma_names_apart(s: Seq<char>)
    ensures
        s == "contains"@ ==> s.len() == 8 && s[0] == 'c' && s[1] == 'o' && s[2] == 'n' && s[3] == 't' && s[4] == 'a' && s[5] == 'i' && s[6] == 'n' && s[7] == 's',
        s == "startswith"@ ==> s.len() == 10 && s[0] == 's' && s[1] == 't' && s[2] == 'a' && s[3] == 'r' && s[4] == 't' && s[5] == 's' && s[6] == 'w' && s[7] == 'i' && s[8] == 't' && s[9] == 'h',
        s == "endswith"@ ==> s.len() == 8 && s[0] == 'e' && s[1] == 'n' && s[2] == 'd' && s[3] == 's' && s[4] == 'w' && s[5] == 'i' && s[6] == 't' && s[7] == 'h',
        s == "all"@ ==> s.len() == 3 && s[0] == 'a' && s[1] == 'l' && s[2] == 'l',
        s == "base64"@ ==> s.len() == 6 && s[0] == 'b' && s[1] == 'a' && s[2] == 's' && s[3] == 'e' && s[4] == '6' && s[5] == '4',
        s == "base64offset"@ ==> s.len() == 12 && s[0] == 'b' && s[1] == 'a' && s[2] == 's' && s[3] == 'e' && s[4] == '6' && s[5] == '4' && s[6] == 'o' && s[7] == 'f' && s[8] == 'f' && s[9] == 's' && s[10] == 'e' && s[11] == 't',
        s == "wide"@ ==> s.len() == 4 && s[0] == 'w' && s[1] == 'i' && s[2] == 'd' && s[3] == 'e',
        s == "utf16le"@ ==> s.len() == 7 && s[0] == 'u' && s[1] == 't' && s[2] == 'f' && s[3] == '1' && s[4] == '6' && s[5] == 'l' && s[6] == 'e',
        s == "utf16be"@ ==> s.len() == 7 && s[0] == 'u' && s[1] == 't' && s[2] == 'f' && s[3] == '1' && s[4] == '6' && s[5] == 'b' && s[6] == 'e',
        s == "utf16"@ ==> s.len() == 5 && s[0] == 'u' && s[1] == 't' && s[2] == 'f' && s[3] == '1' && s[4] == '6',
        s == "windash"@ ==> s.len() == 7 && s[0] == 'w' && s[1] == 'i' && s[2] == 'n' && s[3] == 'd' && s[4] == 'a' && s[5] == 's' && s[6] == 'h',
        s == "re"@ ==> s.len() == 2 && s[0] == 'r' && s[1] == 'e',
        s == "cidr"@ ==> s.len() == 4 && s[0] == 'c' && s[1] == 'i' && s[2] == 'd' && s[3] == 'r',
        s == "cased"@ ==> s.len() == 5 && s[0] == 'c' && s[1] == 'a' && s[2] == 's' && s[3] == 'e' && s[4] == 'd',
        s == "exists"@ ==> s.len() == 6 && s[0] == 'e' && s[1] == 'x' && s[2] == 'i' && s[3] == 's' && s[4] == 't' && s[5] == 's',
        s == "expand"@ ==> s.len() == 6 && s[0] == 'e' && s[1] == 'x' && s[2] == 'p' && s[3] == 'a' && s[4] == 'n' && s[5] == 'd',
        s == "fieldref"@ ==> s.len() == 8 && s[0] == 'f' && s[1] == 'i' && s[2] == 'e' && s[3] == 'l' && s[4] == 'd' && s[5] == 'r' && s[6] == 'e' && s[7] == 'f',
        s == "gt"@ ==> s.len() == 2 && s[0] == 'g' && s[1] == 't',
        s == "gte"@ ==> s.len() == 3 && s[0] == 'g' && s[1] == 't' && s[2] == 'e',
        s == "lt"@ ==> s.len() == 2 && s[0] == 'l' && s[1] == 't',
        s == "lte"@ ==> s.len() == 3 && s[0] == 'l' && s[1] == 't' && s[2] == 'e',
        s == "neq"@ ==> s.len() == 3 && s[0] == 'n' && s[1] == 'e' && s[2] == 'q',
        s == "i"@ ==> s.len() == 1 && s[0] == 'i',
        s == "ignorecase"@ ==> s.len() == 10 && s[0] == 'i' && s[1] == 'g' && s[2] == 'n' && s[3] == 'o' && s[4] == 'r' && s[5] == 'e' && s[6] == 'c' && s[7] == 'a' && s[8] == 's' && s[9] == 'e',
        s == "m"@ ==> s.len() == 1 && s[0] == 'm',
        s == "multiline"@ ==> s.len() == 9 && s[0] == 'm' && s[1] == 'u' && s[2] == 'l' && s[3] == 't' && s[4] == 'i' && s[5] == 'l' && s[6] == 'i' && s[7] == 'n' && s[8] == 'e',
        s == "s"@ ==> s.len() == 1 && s[0] == 's',
        s == "dotall"@ ==> s.len() == 6 && s[0] == 'd' && s[1] == 'o' && s[2] == 't' && s[3] == 'a' && s[4] == 'l' && s[5] == 'l',
        s == "minute"@ ==> s.len() == 6 && s[0] == 'm' && s[1] == 'i' && s[2] == 'n' && s[3] == 'u' && s[4] == 't' && s[5] == 'e',
        s == "hour"@ ==> s.len() == 4 && s[0] == 'h' && s[1] == 'o' && s[2] == 'u' && s[3] == 'r',
        s == "day"@ ==> s.len() == 3 && s[0] == 'd' && s[1] == 'a' && s[2] == 'y',
        s == "week"@ ==> s.len() == 4 && s[0] == 'w' && s[1] == 'e' && s[2] == 'e' && s[3] == 'k',
        s == "month"@ ==> s.len() == 5 && s[0] == 'm' && s[1] == 'o' && s[2] == 'n' && s[3] == 't' && s[4] == 'h',
        s == "year"@ ==> s.len() == 4 && s[0] == 'y' && s[1] == 'e' && s[2] == 'a' && s[3] == 'r',
{
    reveal_strlit("contains");
    reveal_strlit("startswith");
    reveal_strlit("endswith");
    reveal_strlit("all");
    reveal_strlit("base64");
    reveal_strlit("base64offset");
    reveal_strlit("wide");
    reveal_strlit("utf16le");
    reveal_strlit("utf16be");
    reveal_strlit("utf16");
    reveal_strlit("windash");
    reveal_strlit("re");
    reveal_strlit("cidr");
    reveal_strlit("cased");
    reveal_strlit("exists");
    reveal_strlit("expand");
    reveal_strlit("fieldref");
    reveal_strlit("gt");
    reveal_strlit("gte");
    reveal_strlit("lt");
    reveal_strlit("lte");
    reveal_strlit("neq");
    reveal_strlit("i");
    reveal_strlit("ignorecase");
    reveal_strlit("m");
    reveal_strlit("multiline");
    reveal_strlit("s");
    reveal_strlit("dotall");
    reveal_strlit("minute");
    reveal_strlit("hour");
    reveal_strlit("day");
    reveal_strlit("week");
    reveal_strlit("month");
    reveal_strlit("year");
}

/// Which names give which modifier: each modifier has the one name, or the two, that
/// are listed here, and every other text names none.
pub proof fn lemma_modifier_names(s: Seq<char>)
    ensures
        ast::modifier_named(s) == Some(Modifier::Contains) <==> s == "contains"@,
        ast::modifier_named(s) == Some(Modifier::StartsWith) <==> s == "startswith"@,
        ast::modifier_named(s) == Some(Modifier::EndsWith) <==> s == "endswith"@,
        ast::modifier_named(s) == Some(Modifier::All) <==> s == "all"@,
        ast::modifier_named(s) == Some(Modifier::Base64) <==> s == "base64"@,
        ast::modifier_named(s) == Some(Modifier::Base64Offset) <==> s == "base64offset"@,
        ast::modifier_named(s) == Some(Modifier::Wide) <==> s == "wide"@ || s == "utf16le"@,
        ast::modifier_named(s) == Some(Modifier::Utf16be) <==> s == "utf16be"@,
        ast::modifier_named(s) == Some(Modifier::Utf16) <==> s == "utf16"@,
        ast::modifier_named(s) == Some(Modifier::WinDash) <==> s == "windash"@,
        ast::modifier_named(s) == Some(Modifier::Re) <==> s == "re"@,
        ast::modifier_named(s) == Some(Modifier::Cidr) <==> s == "cidr"@,
        ast::modifier_named(s) == Some(Modifier::Cased) <==> s == "cased"@,
        ast::modifier_named(s) == Some(Modifier::Exists) <==> s == "exists"@,
        ast::modifier_named(s) == Some(Modifier::Expand) <==> s == "expand"@,
        ast::modifier_named(s) == Some(Modifier::FieldRef) <==> s == "fieldref"@,
        ast::modifier_named(s) == Some(Modifier::Gt) <==> s == "gt"@,
        ast::modifier_named(s) == Some(Modifier::Gte) <==> s == "gte"@,
        ast::modifier_named(s) == Some(Modifier::Lt) <==> s == "lt"@,
        ast::modifier_named(s) == Some(Modifier::Lte) <==> s == "lte"@,
        ast::modifier_named(s) == Some(Modifier::Neq) <==> s == "neq"@,
        ast::modifier_named(s) == Some(Modifier::IgnoreCase) <==> s == "i"@ || s == "ignorecase"@,
        ast::modifier_named(s) == Some(Modifier::Multiline) <==> s == "m"@ || s == "multiline"@,
        ast::modifier_named(s) == Some(Modifier::DotAll) <==> s == "s"@ || s == "dotall"@,
        ast::modifier_named(s) == Some(Modifier::Minute) <==> s == "minute"@,
        ast::modifier_named(s) == Some(Modifier::Hour) <==> s == "hour"@,
        ast::modifier_named(s) == Some(Modifier::Day) <==> s == "day"@,
        ast::modifier_named(s) == Some(Modifier::Week) <==> s == "week"@,
        ast::modifier_named(s) == Some(Modifier::Month) <==> s == "month"@,
        ast::modifier_named(s) == Some(Modifier::Year) <==> s == "year"@,
{
    lemma_names_apart(s);
}

/// A modifier is read from how it is written.
pub proof fn lemma_modifier_is_read(m: Modifier)
    ensures
        ast::modifier_named(modifier_name(m)) == Some(m),
{
    lemma_modifier_names(modifier_name(m));
}

} // verus!
