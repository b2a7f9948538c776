//! Symbols and the table that maps them to addresses.

use vstd::prelude::*;
use vstd::hash_map::StringHashMap;
use crate::decimal::is_numeral;
use crate::text::{collect_chars, is_ascii_digit, is_ascii_letter, is_digit, is_letter};
use crate::ROM_SIZE;

verus! {

/// Whether `c` may stand at offset `idx` of a symbol: a letter, `$`, `_` or
/// `.` anywhere, a digit or `:` anywhere but at the front.
pub open spec fn valid_label_char(idx: int, c: char) -> bool {
    is_letter(c) || c == '$' || c == '_' || c == '.' || (idx > 0 && (is_digit(c) || c == ':'))
}

/// Whether `name` is a symbol: not empty, and of valid characters throughout.
pub open spec fn valid_symbol(name: Seq<char>) -> bool {
    &&& name.len() > 0
    &&& forall|i: int| 0 <= i < name.len() ==> valid_label_char(i, #[trigger] name[i])
}

/// Why `name` is no symbol, in words.
pub open spec fn symbol_fault(name: Seq<char>) -> Seq<char> {
    if name.len() == 0 {
        "Empty symbol"@
    } else {
        "Invalid symbol: `"@ + name + "`"@
    }
}

/// Tests whether the character `pos.1` may stand at offset `pos.0` of a
/// symbol.
pub fn is_valid_label_char(pos: (usize, char)) -> (r: bool)
    ensures
        r == valid_label_char(pos.0 as int, pos.1),
{
    let idx = pos.0;
    let chr = pos.1;
    is_ascii_letter(chr) || chr == '$' || chr == '_' || chr == '.' || (idx > 0 && (is_ascii_digit(
        chr,
    ) || chr == ':'))
}

/// A validated symbol: the name of a register, a label or a variable.
#[derive(Debug)]
pub struct Label(String);

impl View for Label {
    type V = Seq<char>;

    closed spec fn view(&self) -> Seq<char> {
        self.0@
    }
}

impl Label {
    #[verifier::type_invariant]
    spec fn valid(&self) -> bool {
        valid_symbol(self.0@)
    }

    /// Makes a symbol of `value`, or says why it is none.
    pub fn try_from(value: &str) -> (r: Result<Label, String>)
        ensures
            match r {
                Ok(label) => valid_symbol(value@) && label@ == value@,
                Err(fault) => !valid_symbol(value@) && fault@ == symbol_fault(value@),
            },
    {
        let chars = collect_chars(value);
        if chars.len() == 0 {
            return Err("Empty symbol".to_owned());
        }
        let mut i: usize = 0;
        while i < chars.len()
            invariant
                i <= chars.len(),
                chars@ == value@,
                forall|k: int| 0 <= k < i ==> valid_label_char(k, #[trigger] chars@[k]),
            decreases chars.len() - i,
        {
            if !is_valid_label_char((i, chars[i])) {
                let mut fault = "Invalid symbol: `".to_owned();
                fault.append(value);
                fault.append("`");
                return Err(fault);
            }
            i = i + 1;
        }
        Ok(Label(value.to_owned()))
    }

    /// The symbol's name.
    pub fn as_str(&self) -> (name: &str)
        ensures
            name@ == self@,
            valid_symbol(name@),
    {
        proof {
            use_type_invariant(self);
        }
        self.0.as_str()
    }

    /// The symbol's name, taken out of the symbol.
    pub fn into_string(self) -> (name: String)
        ensures
            name@ == self@,
            valid_symbol(name@),
    {
        proof {
            use_type_invariant(&self);
        }
        self.0
    }
}

/// The addresses of the names that the architecture defines.
pub open spec fn predefined() -> Map<Seq<char>, u16> {
    map![
        "R0"@ => 0u16,
        "R1"@ => 1u16,
        "R2"@ => 2u16,
        "R3"@ => 3u16,
        "R4"@ => 4u16,
        "R5"@ => 5u16,
        "R6"@ => 6u16,
        "R7"@ => 7u16,
        "R8"@ => 8u16,
        "R9"@ => 9u16,
        "R10"@ => 10u16,
        "R11"@ => 11u16,
        "R12"@ => 12u16,
        "R13"@ => 13u16,
        "R14"@ => 14u16,
        "R15"@ => 15u16,
        "SP"@ => 0u16,
        "LCL"@ => 1u16,
        "ARG"@ => 2u16,
        "THIS"@ => 3u16,
        "THAT"@ => 4u16,
        "SCREEN"@ => 16384u16,
        "KBD"@ => 24576u16,
    ]
}

/// The predefined names are symbols.
pub proof fn lemma_predefined_names_are_symbols()
    ensures
        forall|name: Seq<char>| #[trigger] predefined().contains_key(name) ==> valid_symbol(name),
{
    reveal_strlit("R0");
    reveal_strlit("R1");
    reveal_strlit("R2");
    reveal_strlit("R3");
    reveal_strlit("R4");
    reveal_strlit("R5");
    reveal_strlit("R6");
    reveal_strlit("R7");
    reveal_strlit("R8");
    reveal_strlit("R9");
    reveal_strlit("R10");
    reveal_strlit("R11");
    reveal_strlit("R12");
    reveal_strlit("R13");
    reveal_strlit("R14");
    reveal_strlit("R15");
    reveal_strlit("SP");
    reveal_strlit("LCL");
    reveal_strlit("ARG");
    reveal_strlit("THIS");
    reveal_strlit("THAT");
    reveal_strlit("SCREEN");
    reveal_strlit("KBD");
    assert forall|name: Seq<char>| #[trigger] predefined().contains_key(name) implies valid_symbol(
        name,
    ) by {
        assert(name.len() <= 6);
        assert forall|i: int| 0 <= i < name.len() implies valid_label_char(
            i,
            #[trigger] name[i],
        ) by {
            if i == 0 {
            } else if i == 1 {
            } else if i == 2 {
            } else if i == 3 {
            } else if i == 4 {
            } else {
            }
        }
    }
}

/// A symbol is no numeral.
pub proof fn lemma_symbol_is_no_numeral(name: Seq<char>)
    requires
        valid_symbol(name),
    ensures
        !is_numeral(name),
{
    assert(valid_label_char(0, name[0]));
}

/// Whether `table` can be the contents of a symbol table: it holds every
/// predefined name at its address, and no address lies beyond the ROM.
pub open spec fn well_formed(table: Map<Seq<char>, u16>) -> bool {
    &&& predefined().submap_of(table)
    &&& forall|name: Seq<char>| #[trigger] table.contains_key(name) ==> table[name] <= ROM_SIZE
}

/// The mapping from symbols to addresses. It only grows, and an entry, once
/// made, keeps its address.
pub struct SymbolTable {
    symbols: StringHashMap<u16>,
}

impl View for SymbolTable {
    type V = Map<Seq<char>, u16>;

    closed spec fn view(&self) -> Map<Seq<char>, u16> {
        self.symbols@
    }
}

impl Default for SymbolTable {
    /// The table of the predefined names.
    fn default() -> (table: SymbolTable)
        ensures
            table@ == predefined(),
    {
        let mut symbols: StringHashMap<u16> = StringHashMap::new();
        symbols.insert("R0".to_owned(), 0);
        symbols.insert("R1".to_owned(), 1);
        symbols.insert("R2".to_owned(), 2);
        symbols.insert("R3".to_owned(), 3);
        symbols.insert("R4".to_owned(), 4);
        symbols.insert("R5".to_owned(), 5);
        symbols.insert("R6".to_owned(), 6);
        symbols.insert("R7".to_owned(), 7);
        symbols.insert("R8".to_owned(), 8);
        symbols.insert("R9".to_owned(), 9);
        symbols.insert("R10".to_owned(), 10);
        symbols.insert("R11".to_owned(), 11);
        symbols.insert("R12".to_owned(), 12);
        symbols.insert("R13".to_owned(), 13);
        symbols.insert("R14".to_owned(), 14);
        symbols.insert("R15".to_owned(), 15);
        symbols.insert("SP".to_owned(), 0);
        symbols.insert("LCL".to_owned(), 1);
        symbols.insert("ARG".to_owned(), 2);
        symbols.insert("THIS".to_owned(), 3);
        symbols.insert("THAT".to_owned(), 4);
        symbols.insert("SCREEN".to_owned(), 0x4000);
        symbols.insert("KBD".to_owned(), 0x6000);
        proof {
            lemma_predefined_well_formed();
        }
        SymbolTable { symbols }
    }
}

/// The table of the predefined names is a well-formed table.
pub proof fn lemma_predefined_well_formed()
    ensures
        well_formed(predefined()),
{
}

impl SymbolTable {
    #[verifier::type_invariant]
    spec fn valid(&self) -> bool {
        well_formed(self.symbols@)
    }

    /// Binds `label` to `value` unless the table already holds `label`, and
    /// tells whether it did.
    pub fn add_entry(self, label: Label, value: u16) -> (r: (SymbolTable, bool))
        requires
            value <= ROM_SIZE,
        ensures
            well_formed(self@),
            r.1 == !self@.contains_key(label@),
            r.0@ == if r.1 {
                self@.insert(label@, value)
            } else {
                self@
            },
            well_formed(r.0@),
    {
        proof {
            use_type_invariant(&self);
        }
        let mut symbols = self.symbols;
        if symbols.contains_key(label.as_str()) {
            (SymbolTable { symbols }, false)
        } else {
            symbols.insert(label.into_string(), value);
            (SymbolTable { symbols }, true)
        }
    }

    /// Whether the table holds `label`.
    pub fn contains(&self, label: &Label) -> (r: bool)
        ensures
            r == self@.contains_key(label@),
    {
        self.symbols.contains_key(label.as_str())
    }

    /// The address of `label`, if the table holds it.
    pub fn get(&self, label: &Label) -> (r: Option<u16>)
        ensures
            well_formed(self@),
            r == if self@.contains_key(label@) {
                Some(self@[label@])
            } else {
                None
            },
    {
        proof {
            use_type_invariant(self);
        }
        match self.symbols.get(label.as_str()) {
            Some(address) => Some(*address),
            None => None,
        }
    }
}

} // verus!
