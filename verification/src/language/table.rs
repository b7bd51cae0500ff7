//! Languages: ordered tables of symbol names.

use vstd::prelude::*;

use super::symbol::SymbolId;

verus! {

broadcast use vstd::std_specs::vec::group_vec_axioms, vstd::seq::group_seq_axioms;

/// A language: the symbol with id `i` is the `i`-th name of the table.
#[derive(Debug)]
pub struct Language {
    symbols: Vec<String>,
}

/// `true` when `s` and `cs` hold the same characters.
pub fn str_matches(s: &str, cs: &[char]) -> (r: bool)
    ensures
        r == (s@ == cs@),
{
    let n = s.unicode_len();
    if n != cs.len() {
        return false;
    }
    let mut i: usize = 0;
    while i < n
        invariant
            n == s@.len(),
            n == cs@.len(),
            i <= n,
            forall|j: int| 0 <= j < i ==> s@[j] == cs@[j],
        decreases n - i,
    {
        if s.get_char(i) != cs[i] {
            return false;
        }
        i = i + 1;
    }
    assert(s@ =~= cs@);
    true
}

/// `true` when `a` and `b` hold the same characters.
pub fn str_equal(a: &str, b: &str) -> (r: bool)
    ensures
        r == (a@ == b@),
{
    let n = a.unicode_len();
    if n != b.unicode_len() {
        return false;
    }
    let mut i: usize = 0;
    while i < n
        invariant
            n == a@.len(),
            n == b@.len(),
            i <= n,
            forall|j: int| 0 <= j < i ==> a@[j] == b@[j],
        decreases n - i,
    {
        if a.get_char(i) != b.get_char(i) {
            return false;
        }
        i = i + 1;
    }
    assert(a@ =~= b@);
    true
}

impl Language {
    /// The symbol names, in id order.
    pub closed spec fn names(&self) -> Seq<Seq<char>> {
        Seq::new(self.symbols@.len(), |i: int| self.symbols@[i]@)
    }

    /// An empty language.
    pub fn new() -> (r: Self)
        ensures
            r.names() == Seq::<Seq<char>>::empty(),
    {
        let r = Language { symbols: Vec::new() };
        assert(r.names() =~= Seq::<Seq<char>>::empty());
        r
    }

    /// Appends a symbol; its id is the previous symbol count.
    pub fn add_symbol(self, name: &str) -> (r: Self)
        ensures
            r.names() == self.names().push(name@),
    {
        let mut symbols = self.symbols;
        symbols.push(name.to_owned());
        let r = Language { symbols };
        assert(r.names() =~= self.names().push(name@));
        r
    }

    /// Number of symbols.
    pub fn symbol_count(&self) -> (r: usize)
        ensures
            r == self.names().len(),
    {
        self.symbols.len()
    }

    /// Name of the symbol with id `symbol_id`.
    pub fn get_symbol(&self, symbol_id: SymbolId) -> (r: &str)
        requires
            symbol_id < self.names().len(),
        ensures
            r@ == self.names()[symbol_id as int],
    {
        self.symbols[symbol_id].as_str()
    }

    /// Name of the symbol with id `symbol_id`, or `None` if there is no such symbol.
    pub fn try_get_symbol(&self, symbol_id: SymbolId) -> (r: Option<&str>)
        ensures
            r is Some == (symbol_id < self.names().len()),
            r matches Some(s) ==> s@ == self.names()[symbol_id as int],
    {
        if symbol_id < self.symbols.len() {
            Some(self.symbols[symbol_id].as_str())
        } else {
            None
        }
    }

    /// Id of the first symbol called `name`, or `None` if there is none.
    pub fn try_get_id(&self, name: &str) -> (r: Option<SymbolId>)
        ensures
            r matches Some(i) ==> i < self.names().len() && self.names()[i as int] == name@
                && forall|j: int| 0 <= j < i ==> self.names()[j] != name@,
            r is None ==> forall|j: int| 0 <= j < self.names().len() ==> self.names()[j] != name@,
    {
        let mut i: usize = 0;
        while i < self.symbols.len()
            invariant
                i <= self.symbols@.len(),
                forall|j: int| 0 <= j < i ==> self.names()[j] != name@,
            decreases self.symbols@.len() - i,
        {
            if str_equal(self.symbols[i].as_str(), name) {
                assert(self.names()[i as int] == name@);
                return Some(i);
            }
            i = i + 1;
        }
        None
    }

    /// Id of the first symbol whose name is the character sequence `name`.
    pub fn try_get_id_chars(&self, name: &[char]) -> (r: Option<SymbolId>)
        ensures
            r matches Some(i) ==> i < self.names().len() && self.names()[i as int] == name@
                && forall|j: int| 0 <= j < i ==> self.names()[j] != name@,
            r is None ==> forall|j: int| 0 <= j < self.names().len() ==> self.names()[j] != name@,
    {
        let mut i: usize = 0;
        while i < self.symbols.len()
            invariant
                i <= self.symbols@.len(),
                forall|j: int| 0 <= j < i ==> self.names()[j] != name@,
            decreases self.symbols@.len() - i,
        {
            if str_matches(self.symbols[i].as_str(), name) {
                assert(self.names()[i as int] == name@);
                return Some(i);
            }
            i = i + 1;
        }
        None
    }

    /// Id of the first symbol called `name`; the symbol must exist.
    pub fn get_id(&self, name: &str) -> (r: SymbolId)
        requires
            exists|i: int| 0 <= i < self.names().len() && self.names()[i] == name@,
        ensures
            r < self.names().len(),
            self.names()[r as int] == name@,
            forall|j: int| 0 <= j < r ==> self.names()[j] != name@,
    {
        match self.try_get_id(name) {
            Some(id) => id,
            None => {
                assert(false);
                0
            },
        }
    }

    /// A small arithmetic language: `+ - * / << sin cos`.
    pub fn simple_math() -> (r: Self)
        ensures
            r.names() == seq!["+"@, "-"@, "*"@, "/"@, "<<"@, "sin"@, "cos"@],
    {
        let r = Language::new()
            .add_symbol("+")
            .add_symbol("-")
            .add_symbol("*")
            .add_symbol("/")
            .add_symbol("<<")
            .add_symbol("sin")
            .add_symbol("cos");
        assert(r.names() =~= seq!["+"@, "-"@, "*"@, "/"@, "<<"@, "sin"@, "cos"@]);
        r
    }

    /// The arithmetic language extended with `tan`, `^`, `ln` and `exp`.
    pub fn math() -> (r: Self)
        ensures
            r.names() == seq!["+"@, "-"@, "*"@, "/"@, "<<"@, "sin"@, "cos"@, "tan"@, "^"@, "ln"@, "exp"@],
    {
        let r = Language::simple_math()
            .add_symbol("tan")
            .add_symbol("^")
            .add_symbol("ln")
            .add_symbol("exp");
        assert(r.names() =~= seq!["+"@, "-"@, "*"@, "/"@, "<<"@, "sin"@, "cos"@, "tan"@, "^"@, "ln"@, "exp"@]);
        r
    }

    /// `true` when both languages have the same symbol names in the same order.
    pub fn same_as(&self, other: &Language) -> (r: bool)
        ensures
            r == (self.names() == other.names()),
    {
        if self.symbols.len() != other.symbols.len() {
            assert(self.names().len() != other.names().len());
            return false;
        }
        let mut i: usize = 0;
        while i < self.symbols.len()
            invariant
                self.symbols@.len() == other.symbols@.len(),
                i <= self.symbols@.len(),
                forall|j: int| 0 <= j < i ==> self.names()[j] == other.names()[j],
            decreases self.symbols@.len() - i,
        {
            if !str_equal(self.symbols[i].as_str(), other.symbols[i].as_str()) {
                assert(self.names()[i as int] != other.names()[i as int]);
                return false;
            }
            i = i + 1;
        }
        assert(self.names() =~= other.names());
        true
    }
}

/// The decimal digit `d`.
pub open spec fn digit(d: nat) -> char {
    if d == 0 {
        '0'
    } else if d == 1 {
        '1'
    } else if d == 2 {
        '2'
    } else if d == 3 {
        '3'
    } else if d == 4 {
        '4'
    } else if d == 5 {
        '5'
    } else if d == 6 {
        '6'
    } else if d == 7 {
        '7'
    } else if d == 8 {
        '8'
    } else {
        '9'
    }
}

/// The decimal digits of `n`, most significant first.
pub open spec fn decimal(n: nat) -> Seq<char>
    decreases n,
{
    if n < 10 {
        seq![digit(n)]
    } else {
        decimal(n / 10).push(digit(n % 10))
    }
}

fn digit_char(d: usize) -> (r: char)
    requires
        d < 10,
    ensures
        r == digit(d as nat),
{
    if d == 0 {
        '0'
    } else if d == 1 {
        '1'
    } else if d == 2 {
        '2'
    } else if d == 3 {
        '3'
    } else if d == 4 {
        '4'
    } else if d == 5 {
        '5'
    } else if d == 6 {
        '6'
    } else if d == 7 {
        '7'
    } else if d == 8 {
        '8'
    } else {
        '9'
    }
}

/// The decimal digits of `n`, most significant first.
pub fn decimal_chars(n: u64) -> (r: Vec<char>)
    ensures
        r@ == decimal(n as nat),
    decreases n,
{
    if n < 10 {
        let mut v = Vec::new();
        v.push(digit_char(n as usize));
        assert(v@ =~= seq![digit(n as nat)]);
        v
    } else {
        let mut v = decimal_chars(n / 10);
        v.push(digit_char((n % 10) as usize));
        v
    }
}

/// The decimal text of `v`, with a minus sign when it is negative.
pub open spec fn signed_decimal(v: i64) -> Seq<char> {
    if v < 0 {
        seq!['-'] + decimal((-v) as nat)
    } else {
        decimal(v as nat)
    }
}

/// The decimal text of `v`, with a minus sign when it is negative.
pub fn signed_decimal_chars(v: i64) -> (r: Vec<char>)
    ensures
        r@ == signed_decimal(v),
{
    if v < 0 {
        let m: i128 = -(v as i128);
        let digits = decimal_chars(m as u64);
        let mut out: Vec<char> = Vec::new();
        out.push('-');
        let mut i: usize = 0;
        while i < digits.len()
            invariant
                i <= digits@.len(),
                out@ == seq!['-'] + digits@.take(i as int),
            decreases digits.len() - i,
        {
            out.push(digits[i]);
            assert(out@ =~= seq!['-'] + digits@.take(i + 1));
            i = i + 1;
        }
        assert(digits@.take(digits@.len() as int) =~= digits@);
        out
    } else {
        decimal_chars(v as u64)
    }
}

/// The string made of the characters `chars` (`String::from_iter`).
#[verifier::external_body]
pub fn string_from_chars(chars: &[char]) -> (r: String)
    ensures
        r@ == chars@,
{
    String::from_iter(chars.iter())
}

impl Language {
    /// The name of symbol `symbol_id`, as characters.
    pub fn symbol_chars(&self, symbol_id: SymbolId) -> (r: Vec<char>)
        requires
            symbol_id < self.names().len(),
        ensures
            r@ == self.names()[symbol_id as int],
    {
        super::parse::chars_of(self.get_symbol(symbol_id))
    }

    /// Appends a symbol whose name is the characters `name`.
    pub fn add_symbol_chars(self, name: &Vec<char>) -> (r: Self)
        ensures
            r.names() == self.names().push(name@),
    {
        let text = string_from_chars(name.as_slice());
        self.add_symbol(text.as_str())
    }
}

impl Clone for Language {
    fn clone(&self) -> (r: Self)
        ensures
            r.names() == self.names(),
    {
        let mut symbols: Vec<String> = Vec::new();
        let mut i: usize = 0;
        while i < self.symbols.len()
            invariant
                i <= self.symbols@.len(),
                symbols@.len() == i,
                forall|j: int| 0 <= j < i ==> #[trigger] symbols@[j]@ == self.symbols@[j]@,
            decreases self.symbols@.len() - i,
        {
            symbols.push(self.symbols[i].clone());
            i = i + 1;
        }
        let r = Language { symbols };
        assert(r.names() =~= self.names());
        r
    }
}

impl Default for Language {
    fn default() -> (r: Self)
        ensures
            r.names() == Seq::<Seq<char>>::empty(),
    {
        Language::new()
    }
}

} // verus!
