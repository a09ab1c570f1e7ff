//! The clauses of the macro library, taken apart.

use crate::fibratus;
use crate::text;
use vstd::prelude::*;

verus! {

/// What a clause of a macro asks of a field: that it is a text, that it is not, or that
/// it is not a number or another field.
pub enum Shape {
    Equal { field: Seq<char>, value: Seq<char> },
    Unequal { field: Seq<char>, value: Seq<char> },
    UnequalTo { field: Seq<char>, word: Seq<char> },
}

/// A literal.
pub open spec fn quoted(v: Seq<char>) -> Seq<char> {
    "'"@ + v + "'"@
}

/// How a clause of that shape is written.
pub open spec fn shape_text(shape: Shape) -> Seq<char> {
    match shape {
        Shape::Equal { field, value } => field + " = "@ + quoted(value),
        Shape::Unequal { field, value } => field + " != "@ + quoted(value),
        Shape::UnequalTo { field, word } => field + " != "@ + word,
    }
}

/// How a clause of that shape is written where case does not count.
pub open spec fn relaxed_text(shape: Shape) -> Seq<char> {
    match shape {
        Shape::Equal { field, value } => field + " ~= "@ + quoted(value),
        _ => shape_text(shape),
    }
}

/// How the clauses are written.
pub open spec fn shape_texts(shapes: Seq<Shape>) -> Seq<Seq<char>> {
    shapes.map_values(|s: Shape| shape_text(s))
}

/// A character of a word.
pub open spec fn word_char(c: char) -> bool {
    'a' <= c <= 'z' || 'A' <= c <= 'Z' || '0' <= c <= '9' || c == '.' || c == '_'
}

/// A word: letters, digits, dots and underscores.
pub open spec fn is_word(w: Seq<char>) -> bool {
    w.len() > 0 && forall|i: int| 0 <= i < w.len() ==> word_char(#[trigger] w[i])
}

/// A shape of words. The word behind an inequality is not as long as `and`.
pub open spec fn sound(shape: Shape) -> bool {
    match shape {
        Shape::Equal { field, value } => is_word(field) && is_word(value),
        Shape::Unequal { field, value } => is_word(field) && is_word(value),
        Shape::UnequalTo { field, word } => is_word(field) && is_word(word) && word.len() != 3,
    }
}

/// The shapes of the clauses of each macro.
pub open spec fn shape_table() -> Seq<Seq<Shape>> {
    seq![
        seq![Shape::Equal { field: "evt.name"@, value: "CreateProcess"@ }],
        seq![Shape::Equal { field: "evt.name"@, value: "CreateThread"@ }],
        seq![Shape::Equal { field: "evt.name"@, value: "WriteFile"@ }],
        seq![Shape::Equal { field: "evt.name"@, value: "RenameFile"@ }],
        seq![Shape::Equal { field: "evt.name"@, value: "ReadFile"@ }],
        seq![Shape::Equal { field: "evt.name"@, value: "DeleteFile"@ }],
        seq![Shape::Equal { field: "evt.name"@, value: "SetFileInformation"@ }],
        seq![Shape::Equal { field: "evt.name"@, value: "LoadModule"@ }],
        seq![Shape::Equal { field: "evt.name"@, value: "UnloadModule"@ }],
        seq![Shape::Equal { field: "evt.name"@, value: "Send"@ }],
        seq![Shape::Equal { field: "evt.name"@, value: "Recv"@ }],
        seq![Shape::Equal { field: "evt.name"@, value: "Connect"@ }],
        seq![Shape::Equal { field: "evt.name"@, value: "Accept"@ }],
        seq![Shape::Equal { field: "evt.name"@, value: "VirtualAlloc"@ }],
        seq![Shape::Equal { field: "evt.name"@, value: "VirtualFree"@ }],
        seq![Shape::Equal { field: "evt.name"@, value: "MapViewFile"@ }],
        seq![Shape::Equal { field: "evt.name"@, value: "UnmapViewFile"@ }],
        seq![Shape::Equal { field: "evt.name"@, value: "DuplicateHandle"@ }],
        seq![Shape::Equal { field: "evt.name"@, value: "CreateHandle"@ }],
        seq![Shape::Equal { field: "evt.name"@, value: "QueryDns"@ }],
        seq![Shape::Equal { field: "evt.name"@, value: "ReplyDns"@ }],
        seq![
            Shape::Equal { field: "evt.name"@, value: "CreateThread"@ },
            Shape::UnequalTo { field: "evt.pid"@, word: "4"@ },
            Shape::UnequalTo { field: "evt.pid"@, word: "thread.pid"@ },
        ],
        seq![
            Shape::Equal { field: "evt.name"@, value: "CreateFile"@ },
            Shape::Equal { field: "file.operation"@, value: "OPEN"@ },
            Shape::Equal { field: "file.status"@, value: "Success"@ },
        ],
        seq![
            Shape::Equal { field: "evt.name"@, value: "CreateFile"@ },
            Shape::Unequal { field: "file.operation"@, value: "OPEN"@ },
            Shape::Equal { field: "file.status"@, value: "Success"@ },
        ],
        seq![
            Shape::Equal { field: "evt.name"@, value: "CreateFile"@ },
            Shape::Equal { field: "file.operation"@, value: "CREATE"@ },
            Shape::Equal { field: "file.status"@, value: "Success"@ },
        ],
        seq![
            Shape::Equal { field: "evt.name"@, value: "CreateFile"@ },
            Shape::Equal { field: "file.operation"@, value: "SUPERSEDE"@ },
        ],
        seq![
            Shape::Equal { field: "evt.name"@, value: "RegSetValue"@ },
            Shape::Equal { field: "registry.status"@, value: "Success"@ },
        ],
        seq![
            Shape::Equal { field: "evt.name"@, value: "RegCreateKey"@ },
            Shape::Equal { field: "registry.status"@, value: "Success"@ },
        ],
        seq![
            Shape::Equal { field: "evt.name"@, value: "OpenProcess"@ },
            Shape::Equal { field: "ps.access.status"@, value: "Success"@ },
        ],
        seq![
            Shape::Equal { field: "evt.name"@, value: "OpenThread"@ },
            Shape::Equal { field: "thread.access.status"@, value: "Success"@ },
        ],
        seq![
            Shape::Equal { field: "evt.name"@, value: "RegOpenKey"@ },
            Shape::Equal { field: "registry.status"@, value: "Success"@ },
        ],
    ]
}

/// The shapes of macro `k` are sound, and its expression is their clauses.
pub open spec fn shaped(k: int) -> bool {
    &&& shape_table()[k].len() > 0
    &&& forall|j: int|
        0 <= j < shape_table()[k].len() ==> sound(#[trigger] shape_table()[k][j])
    &&& fibratus::macro_table()[k].1 == text::join(shape_texts(shape_table()[k]), " and "@)
}

proof fn lemma_join_two(a: Seq<char>, b: Seq<char>, sep: Seq<char>)
    ensures
        text::join(seq![a, b], sep) == a + sep + b,
{
    reveal_with_fuel(text::join, 2);
    assert(seq![a, b].drop_last() =~= seq![a]);
}

proof fn lemma_join_three(a: Seq<char>, b: Seq<char>, c: Seq<char>, sep: Seq<char>)
    ensures
        text::join(seq![a, b, c], sep) == a + sep + b + sep + c,
{
    assert(seq![a, b, c].drop_last() =~= seq![a, b]);
    lemma_join_two(a, b, sep);
}

/// A macro of one clause that is written like its shape.
proof fn lemma_one_clause(k: int, shape: Shape)
    requires
        shape_table()[k] =~= seq![shape],
        sound(shape),
        fibratus::macro_table()[k].1 =~= shape_text(shape),
    ensures
        shaped(k),
{
    assert(shape_texts(shape_table()[k]) =~= seq![shape_text(shape)]);
}

/// A macro of two clauses that are written like their shapes.
proof fn lemma_two_clauses(k: int, a: Shape, b: Shape)
    requires
        shape_table()[k] =~= seq![a, b],
        sound(a),
        sound(b),
        fibratus::macro_table()[k].1 =~= shape_text(a) + " and "@ + shape_text(b),
    ensures
        shaped(k),
{
    assert(shape_texts(shape_table()[k]) =~= seq![shape_text(a), shape_text(b)]);
    lemma_join_two(shape_text(a), shape_text(b), " and "@);
}

/// A macro of three clauses that are written like their shapes.
proof fn lemma_three_clauses(k: int, a: Shape, b: Shape, c: Shape)
    requires
        shape_table()[k] =~= seq![a, b, c],
        sound(a),
        sound(b),
        sound(c),
        fibratus::macro_table()[k].1 =~= shape_text(a) + " and "@ + shape_text(b) + " and "@
            + shape_text(c),
    ensures
        shaped(k),
{
    assert(shape_texts(shape_table()[k]) =~= seq![shape_text(a), shape_text(b), shape_text(c)]);
    lemma_join_three(shape_text(a), shape_text(b), shape_text(c), " and "@);
}

/// The macros have the shapes of the table.
pub proof fn lemma_shapes()
    ensures
        shape_table().len() == fibratus::macro_table().len(),
        forall|k: int| 0 <= k < shape_table().len() ==> #[trigger] shaped(k),
{
    reveal_strlit("evt.name");
    reveal_strlit(" = ");
    reveal_strlit(" != ");
    reveal_strlit("'");
    reveal_strlit(" and ");
    assert(shaped(0)) by {
        reveal_strlit("evt.name = 'CreateProcess'");
        reveal_strlit("CreateProcess");
        lemma_one_clause(0, shape_table()[0][0]);
    }
    assert(shaped(1)) by {
        reveal_strlit("evt.name = 'CreateThread'");
        reveal_strlit("CreateThread");
        lemma_one_clause(1, shape_table()[1][0]);
    }
    assert(shaped(2)) by {
        reveal_strlit("evt.name = 'WriteFile'");
        reveal_strlit("WriteFile");
        lemma_one_clause(2, shape_table()[2][0]);
    }
    assert(shaped(3)) by {
        reveal_strlit("evt.name = 'RenameFile'");
        reveal_strlit("RenameFile");
        lemma_one_clause(3, shape_table()[3][0]);
    }
    assert(shaped(4)) by {
        reveal_strlit("evt.name = 'ReadFile'");
        reveal_strlit("ReadFile");
        lemma_one_clause(4, shape_table()[4][0]);
    }
    assert(shaped(5)) by {
        reveal_strlit("evt.name = 'DeleteFile'");
        reveal_strlit("DeleteFile");
        lemma_one_clause(5, shape_table()[5][0]);
    }
    assert(shaped(6)) by {
        reveal_strlit("evt.name = 'SetFileInformation'");
        reveal_strlit("SetFileInformation");
        lemma_one_clause(6, shape_table()[6][0]);
    }
    assert(shaped(7)) by {
        reveal_strlit("evt.name = 'LoadModule'");
        reveal_strlit("LoadModule");
        lemma_one_clause(7, shape_table()[7][0]);
    }
    assert(shaped(8)) by {
        reveal_strlit("evt.name = 'UnloadModule'");
        reveal_strlit("UnloadModule");
        lemma_one_clause(8, shape_table()[8][0]);
    }
    assert(shaped(9)) by {
        reveal_strlit("evt.name = 'Send'");
        reveal_strlit("Send");
        lemma_one_clause(9, shape_table()[9][0]);
    }
    assert(shaped(10)) by {
        reveal_strlit("evt.name = 'Recv'");
        reveal_strlit("Recv");
        lemma_one_clause(10, shape_table()[10][0]);
    }
    assert(shaped(11)) by {
        reveal_strlit("evt.name = 'Connect'");
        reveal_strlit("Connect");
        lemma_one_clause(11, shape_table()[11][0]);
    }
    assert(shaped(12)) by {
        reveal_strlit("evt.name = 'Accept'");
        reveal_strlit("Accept");
        lemma_one_clause(12, shape_table()[12][0]);
    }
    assert(shaped(13)) by {
        reveal_strlit("evt.name = 'VirtualAlloc'");
        reveal_strlit("VirtualAlloc");
        lemma_one_clause(13, shape_table()[13][0]);
    }
    assert(shaped(14)) by {
        reveal_strlit("evt.name = 'VirtualFree'");
        reveal_strlit("VirtualFree");
        lemma_one_clause(14, shape_table()[14][0]);
    }
    assert(shaped(15)) by {
        reveal_strlit("evt.name = 'MapViewFile'");
        reveal_strlit("MapViewFile");
        lemma_one_clause(15, shape_table()[15][0]);
    }
    assert(shaped(16)) by {
        reveal_strlit("evt.name = 'UnmapViewFile'");
        reveal_strlit("UnmapViewFile");
        lemma_one_clause(16, shape_table()[16][0]);
    }
    assert(shaped(17)) by {
        reveal_strlit("evt.name = 'DuplicateHandle'");
        reveal_strlit("DuplicateHandle");
        lemma_one_clause(17, shape_table()[17][0]);
    }
    assert(shaped(18)) by {
        reveal_strlit("evt.name = 'CreateHandle'");
        reveal_strlit("CreateHandle");
        lemma_one_clause(18, shape_table()[18][0]);
    }
    assert(shaped(19)) by {
        reveal_strlit("evt.name = 'QueryDns'");
        reveal_strlit("QueryDns");
        lemma_one_clause(19, shape_table()[19][0]);
    }
    assert(shaped(20)) by {
        reveal_strlit("evt.name = 'ReplyDns'");
        reveal_strlit("ReplyDns");
        lemma_one_clause(20, shape_table()[20][0]);
    }
    assert(shaped(21)) by {
        reveal_strlit("evt.name = 'CreateThread' and evt.pid != 4 and evt.pid != thread.pid");
        reveal_strlit("CreateThread");
        reveal_strlit("evt.pid");
        reveal_strlit("4");
        reveal_strlit("thread.pid");
        lemma_three_clauses(21, shape_table()[21][0], shape_table()[21][1], shape_table()[21][2]);
    }
    assert(shaped(22)) by {
        reveal_strlit("evt.name = 'CreateFile' and file.operation = 'OPEN' and file.status = 'Success'");
        reveal_strlit("CreateFile");
        reveal_strlit("file.operation");
        reveal_strlit("OPEN");
        reveal_strlit("file.status");
        reveal_strlit("Success");
        lemma_three_clauses(22, shape_table()[22][0], shape_table()[22][1], shape_table()[22][2]);
    }
    assert(shaped(23)) by {
        reveal_strlit("evt.name = 'CreateFile' and file.operation != 'OPEN' and file.status = 'Success'");
        reveal_strlit("CreateFile");
        reveal_strlit("file.operation");
        reveal_strlit("OPEN");
        reveal_strlit("file.status");
        reveal_strlit("Success");
        lemma_three_clauses(23, shape_table()[23][0], shape_table()[23][1], shape_table()[23][2]);
    }
    assert(shaped(24)) by {
        reveal_strlit("evt.name = 'CreateFile' and file.operation = 'CREATE' and file.status = 'Success'");
        reveal_strlit("CreateFile");
        reveal_strlit("file.operation");
        reveal_strlit("CREATE");
        reveal_strlit("file.status");
        reveal_strlit("Success");
        lemma_three_clauses(24, shape_table()[24][0], shape_table()[24][1], shape_table()[24][2]);
    }
    assert(shaped(25)) by {
        reveal_strlit("evt.name = 'CreateFile' and file.operation = 'SUPERSEDE'");
        reveal_strlit("CreateFile");
        reveal_strlit("file.operation");
        reveal_strlit("SUPERSEDE");
        lemma_two_clauses(25, shape_table()[25][0], shape_table()[25][1]);
    }
    assert(shaped(26)) by {
        reveal_strlit("evt.name = 'RegSetValue' and registry.status = 'Success'");
        reveal_strlit("RegSetValue");
        reveal_strlit("registry.status");
        reveal_strlit("Success");
        lemma_two_clauses(26, shape_table()[26][0], shape_table()[26][1]);
    }
    assert(shaped(27)) by {
        reveal_strlit("evt.name = 'RegCreateKey' and registry.status = 'Success'");
        reveal_strlit("RegCreateKey");
        reveal_strlit("registry.status");
        reveal_strlit("Success");
        lemma_two_clauses(27, shape_table()[27][0], shape_table()[27][1]);
    }
    assert(shaped(28)) by {
        reveal_strlit("evt.name = 'OpenProcess' and ps.access.status = 'Success'");
        reveal_strlit("OpenProcess");
        reveal_strlit("ps.access.status");
        reveal_strlit("Success");
        lemma_two_clauses(28, shape_table()[28][0], shape_table()[28][1]);
    }
    assert(shaped(29)) by {
        reveal_strlit("evt.name = 'OpenThread' and thread.access.status = 'Success'");
        reveal_strlit("OpenThread");
        reveal_strlit("thread.access.status");
        reveal_strlit("Success");
        lemma_two_clauses(29, shape_table()[29][0], shape_table()[29][1]);
    }
    assert(shaped(30)) by {
        reveal_strlit("evt.name = 'RegOpenKey' and registry.status = 'Success'");
        reveal_strlit("RegOpenKey");
        reveal_strlit("registry.status");
        reveal_strlit("Success");
        lemma_two_clauses(30, shape_table()[30][0], shape_table()[30][1]);
    }
}

/// The macro whose expression has that length, and these characters at the beginning
/// and the end of its literals.
pub open spec fn numbered(n: nat, a: char, b: char) -> int {
    if n == 26 && a == 'C' && b == 's' {
        0
    } else if n == 25 && a == 'C' && b == 'd' {
        1
    } else if n == 22 && a == 'W' && b == 'e' {
        2
    } else if n == 23 && a == 'R' && b == 'e' {
        3
    } else if n == 21 && a == 'R' && b == 'e' {
        4
    } else if n == 23 && a == 'D' && b == 'e' {
        5
    } else if n == 31 && a == 'S' && b == 'n' {
        6
    } else if n == 23 && a == 'L' && b == 'e' {
        7
    } else if n == 25 && a == 'U' && b == 'e' {
        8
    } else if n == 17 && a == 'S' && b == 'd' {
        9
    } else if n == 17 && a == 'R' && b == 'v' {
        10
    } else if n == 20 && a == 'C' && b == 't' {
        11
    } else if n == 19 && a == 'A' && b == 't' {
        12
    } else if n == 25 && a == 'V' && b == 'c' {
        13
    } else if n == 24 && a == 'V' && b == 'e' {
        14
    } else if n == 24 && a == 'M' && b == 'e' {
        15
    } else if n == 26 && a == 'U' && b == 'e' {
        16
    } else if n == 28 && a == 'D' && b == 'e' {
        17
    } else if n == 25 && a == 'C' && b == 'e' {
        18
    } else if n == 21 && a == 'Q' && b == 's' {
        19
    } else if n == 21 && a == 'R' && b == 's' {
        20
    } else if n == 68 && a == 'C' && b == 'i' {
        21
    } else if n == 79 && a == 'C' && b == 's' {
        22
    } else if n == 80 && a == 'C' && b == 's' {
        23
    } else if n == 81 && a == 'C' && b == 's' {
        24
    } else if n == 56 && a == 'C' && b == 'E' {
        25
    } else if n == 56 && a == 'R' && b == 's' {
        26
    } else if n == 57 && a == 'R' && b == 's' {
        27
    } else if n == 57 && a == 'O' && b == 's' {
        28
    } else if n == 60 && a == 'O' && b == 's' {
        29
    } else if n == 55 && a == 'R' && b == 's' {
        30
    } else {
        -1
    }
}

/// The number of the macro with that expression.
pub open spec fn number_of(src: Seq<char>) -> int {
    numbered(src.len(), src[12], src[src.len() - 2])
}

/// No two macros stand for the same expression.
pub proof fn lemma_sources_differ()
    ensures
        forall|k: int|
            0 <= k < fibratus::macro_table().len() ==> number_of(
                (#[trigger] fibratus::macro_table()[k]).1,
            ) == k,
{
    let table = fibratus::macro_table();
    assert(table.len() == 31);
    assert(number_of(table[0].1) == 0) by {
        reveal_strlit("evt.name = 'CreateProcess'");
    }
    assert(number_of(table[1].1) == 1) by {
        reveal_strlit("evt.name = 'CreateThread'");
    }
    assert(number_of(table[2].1) == 2) by {
        reveal_strlit("evt.name = 'WriteFile'");
    }
    assert(number_of(table[3].1) == 3) by {
        reveal_strlit("evt.name = 'RenameFile'");
    }
    assert(number_of(table[4].1) == 4) by {
        reveal_strlit("evt.name = 'ReadFile'");
    }
    assert(number_of(table[5].1) == 5) by {
        reveal_strlit("evt.name = 'DeleteFile'");
    }
    assert(number_of(table[6].1) == 6) by {
        reveal_strlit("evt.name = 'SetFileInformation'");
    }
    assert(number_of(table[7].1) == 7) by {
        reveal_strlit("evt.name = 'LoadModule'");
    }
    assert(number_of(table[8].1) == 8) by {
        reveal_strlit("evt.name = 'UnloadModule'");
    }
    assert(number_of(table[9].1) == 9) by {
        reveal_strlit("evt.name = 'Send'");
    }
    assert(number_of(table[10].1) == 10) by {
        reveal_strlit("evt.name = 'Recv'");
    }
    assert(number_of(table[11].1) == 11) by {
        reveal_strlit("evt.name = 'Connect'");
    }
    assert(number_of(table[12].1) == 12) by {
        reveal_strlit("evt.name = 'Accept'");
    }
    assert(number_of(table[13].1) == 13) by {
        reveal_strlit("evt.name = 'VirtualAlloc'");
    }
    assert(number_of(table[14].1) == 14) by {
        reveal_strlit("evt.name = 'VirtualFree'");
    }
    assert(number_of(table[15].1) == 15) by {
        reveal_strlit("evt.name = 'MapViewFile'");
    }
    assert(number_of(table[16].1) == 16) by {
        reveal_strlit("evt.name = 'UnmapViewFile'");
    }
    assert(number_of(table[17].1) == 17) by {
        reveal_strlit("evt.name = 'DuplicateHandle'");
    }
    assert(number_of(table[18].1) == 18) by {
        reveal_strlit("evt.name = 'CreateHandle'");
    }
    assert(number_of(table[19].1) == 19) by {
        reveal_strlit("evt.name = 'QueryDns'");
    }
    assert(number_of(table[20].1) == 20) by {
        reveal_strlit("evt.name = 'ReplyDns'");
    }
    assert(number_of(table[21].1) == 21) by {
        reveal_strlit("evt.name = 'CreateThread' and evt.pid != 4 and evt.pid != thread.pid");
    }
    assert(number_of(table[22].1) == 22) by {
        reveal_strlit("evt.name = 'CreateFile' and file.operation = 'OPEN' and file.status = 'Success'");
    }
    assert(number_of(table[23].1) == 23) by {
        reveal_strlit("evt.name = 'CreateFile' and file.operation != 'OPEN' and file.status = 'Success'");
    }
    assert(number_of(table[24].1) == 24) by {
        reveal_strlit("evt.name = 'CreateFile' and file.operation = 'CREATE' and file.status = 'Success'");
    }
    assert(number_of(table[25].1) == 25) by {
        reveal_strlit("evt.name = 'CreateFile' and file.operation = 'SUPERSEDE'");
    }
    assert(number_of(table[26].1) == 26) by {
        reveal_strlit("evt.name = 'RegSetValue' and registry.status = 'Success'");
    }
    assert(number_of(table[27].1) == 27) by {
        reveal_strlit("evt.name = 'RegCreateKey' and registry.status = 'Success'");
    }
    assert(number_of(table[28].1) == 28) by {
        reveal_strlit("evt.name = 'OpenProcess' and ps.access.status = 'Success'");
    }
    assert(number_of(table[29].1) == 29) by {
        reveal_strlit("evt.name = 'OpenThread' and thread.access.status = 'Success'");
    }
    assert(number_of(table[30].1) == 30) by {
        reveal_strlit("evt.name = 'RegOpenKey' and registry.status = 'Success'");
    }
}

} // verus!
