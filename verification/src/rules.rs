//! Rules as rows of symbols, and rule sets of one width.
use crate::text::{chars_of, pieces, split, views};
use vstd::prelude::*;

verus! {

/// The symbol of a zero bit, as a byte.
pub const ZERO: u8 = 0x30;

/// The symbol of a one bit, as a byte.
pub const ONE: u8 = 0x31;

/// The symbol that matches either bit value, as a byte.
pub const EITHER: u8 = 0x5F;

/// Whether `b` is one of the three symbols.
pub open spec fn is_symbol(b: u8) -> bool {
    b == ZERO || b == ONE || b == EITHER
}

/// The symbol that the character `c` writes, if it writes one.
pub open spec fn symbol_of(c: char) -> Option<u8> {
    if c == '0' {
        Some(ZERO)
    } else if c == '1' {
        Some(ONE)
    } else if c == '_' {
        Some(EITHER)
    } else {
        None
    }
}

/// The symbols that the characters of `line` write, in their order; every
/// other character is passed over.
pub open spec fn symbols_in(line: Seq<char>) -> Seq<u8>
    decreases line.len(),
{
    if line.len() == 0 {
        Seq::empty()
    } else {
        match symbol_of(line.last()) {
            Some(b) => symbols_in(line.drop_last()).push(b),
            None => symbols_in(line.drop_last()),
        }
    }
}

/// Whether `rules` are rows of `width` symbols each.
pub open spec fn is_rule_set(rules: Seq<Seq<u8>>, width: nat) -> bool {
    forall|r: int|
        0 <= r < rules.len() ==> {
            &&& (#[trigger] rules[r]).len() == width
            &&& forall|c: int| 0 <= c < width ==> is_symbol(#[trigger] rules[r][c])
        }
}

/// The lines of a text: its pieces between line feeds, without the empty
/// piece behind a line feed that ends the text.
pub open spec fn text_lines(text: Seq<char>) -> Seq<Seq<char>> {
    let all = pieces(text, '\n');
    if all.len() > 0 && all.last().len() == 0 {
        all.drop_last()
    } else {
        all
    }
}

/// The rows of symbols that the lines of a text write.
pub open spec fn rule_rows(text: Seq<char>) -> Seq<Seq<u8>> {
    let lines = text_lines(text);
    Seq::new(lines.len(), |k: int| symbols_in(lines[k]))
}

/// The position of the first of `rows` that is not `width` long.
pub open spec fn first_misfit(rows: Seq<Seq<u8>>, width: nat) -> Option<int>
    decreases rows.len(),
{
    if rows.len() == 0 {
        None
    } else {
        match first_misfit(rows.drop_last(), width) {
            Some(k) => Some(k),
            None => if rows.last().len() != width {
                Some(rows.len() - 1)
            } else {
                None
            },
        }
    }
}

/// Only symbols come out of a line.
pub proof fn lemma_symbols_in(line: Seq<char>)
    ensures
        symbols_in(line).len() <= line.len(),
        forall|c: int| 0 <= c < symbols_in(line).len() ==> is_symbol(#[trigger] symbols_in(line)[c]),
    decreases line.len(),
{
    if line.len() > 0 {
        lemma_symbols_in(line.drop_last());
    }
}

/// The symbols of two texts, one behind the other, are the symbols of the
/// first and then those of the second.
pub proof fn lemma_symbols_in_concat(a: Seq<char>, b: Seq<char>)
    ensures
        symbols_in(a + b) == symbols_in(a) + symbols_in(b),
    decreases b.len(),
{
    if b.len() == 0 {
        assert(a + b =~= a);
        assert(symbols_in(a) + symbols_in(b) =~= symbols_in(a));
    } else {
        lemma_symbols_in_concat(a, b.drop_last());
        assert((a + b).drop_last() =~= a + b.drop_last());
        assert((a + b).last() == b.last());
        match symbol_of(b.last()) {
            Some(x) => {
                assert(symbols_in(a) + symbols_in(b.drop_last()).push(x) =~= (symbols_in(a)
                    + symbols_in(b.drop_last())).push(x));
            },
            None => {},
        }
    }
}

/// A text of symbols only writes as many symbols as it has characters.
pub proof fn lemma_symbols_in_full(line: Seq<char>)
    requires
        forall|k: int| 0 <= k < line.len() ==> symbol_of(#[trigger] line[k]) is Some,
    ensures
        symbols_in(line).len() == line.len(),
    decreases line.len(),
{
    if line.len() > 0 {
        let front = line.drop_last();
        assert forall|k: int| 0 <= k < front.len() implies symbol_of(#[trigger] front[k])
            is Some by {
            assert(front[k] == line[k]);
        }
        lemma_symbols_in_full(front);
    }
}

/// `first_misfit` finds the first row of another length, and finds none
/// exactly when every row is `width` long.
pub proof fn lemma_first_misfit(rows: Seq<Seq<u8>>, width: nat)
    ensures
        match first_misfit(rows, width) {
            Some(k) => {
                &&& 0 <= k < rows.len()
                &&& rows[k].len() != width
                &&& forall|a: int| 0 <= a < k ==> (#[trigger] rows[a]).len() == width
            },
            None => forall|a: int| 0 <= a < rows.len() ==> (#[trigger] rows[a]).len() == width,
        },
    decreases rows.len(),
{
    if rows.len() > 0 {
        let front = rows.drop_last();
        lemma_first_misfit(front, width);
        assert forall|a: int| 0 <= a < front.len() implies front[a] == rows[a] by {}
        match first_misfit(front, width) {
            Some(k) => {
                assert(front[k] == rows[k]);
                assert forall|a: int| 0 <= a < k implies (#[trigger] rows[a]).len() == width by {
                    assert(front[a] == rows[a]);
                }
            },
            None => {
                assert forall|a: int| 0 <= a < rows.len() - 1 implies (#[trigger] rows[a]).len()
                    == width by {
                    assert(front[a] == rows[a]);
                }
            },
        }
    }
}

/// A line whose number of symbols is not the width of the rule set.
#[derive(Clone, Copy, Debug, PartialEq, Eq, Structural)]
pub struct WidthError {
    /// The position of the line in the text.
    pub line: usize,
    /// The number of symbols in the line.
    pub symbols: usize,
}

/// The symbols that `chars` write.
fn symbols(chars: &[char]) -> (rule: Vec<u8>)
    ensures
        rule@ == symbols_in(chars@),
{
    let mut rule: Vec<u8> = Vec::new();
    let mut k: usize = 0;
    assert(chars@.take(0) =~= Seq::empty());
    while k < chars.len()
        invariant
            k <= chars@.len(),
            rule@ == symbols_in(chars@.take(k as int)),
        decreases chars@.len() - k,
    {
        proof {
            let upto = chars@.take(k + 1);
            assert(upto.drop_last() =~= chars@.take(k as int));
            assert(upto.last() == chars@[k as int]);
        }
        let c = chars[k];
        if c == '0' {
            rule.push(ZERO);
        } else if c == '1' {
            rule.push(ONE);
        } else if c == '_' {
            rule.push(EITHER);
        }
        k += 1;
    }
    assert(chars@.take(k as int) =~= chars@);
    rule
}

/// The rule that `line` writes: its symbols in their order, every other
/// character passed over.
pub fn line_to_rule(line: &str) -> (rule: Vec<u8>)
    ensures
        rule@ == symbols_in(line@),
{
    let chars = chars_of(line);
    symbols(chars.as_slice())
}

/// An ordered set of rules of one width.
pub struct RuleSet {
    width: usize,
    rules: Vec<Vec<u8>>,
}

impl View for RuleSet {
    type V = Seq<Seq<u8>>;

    closed spec fn view(&self) -> Seq<Seq<u8>> {
        Seq::new(self.rules@.len(), |r: int| self.rules@[r]@)
    }
}

impl RuleSet {
    #[verifier::type_invariant]
    spec fn inv(&self) -> bool {
        is_rule_set(self@, self.width as nat)
    }

    /// The number of symbols of each rule.
    pub closed spec fn spec_width(&self) -> nat {
        self.width as nat
    }

    /// The number of symbols of each rule. Every rule set holds rows of
    /// symbols of its width.
    pub fn width(&self) -> (w: usize)
        ensures
            w == self.spec_width(),
            is_rule_set(self@, w as nat),
    {
        proof {
            use_type_invariant(self);
        }
        self.width
    }

    /// The number of rules.
    pub fn len(&self) -> (n: usize)
        ensures
            n == self@.len(),
    {
        self.rules.len()
    }

    /// The rule at position `r`.
    pub fn rule(&self, r: usize) -> (rule: &[u8])
        requires
            r < self@.len(),
        ensures
            rule@ == self@[r as int],
    {
        self.rules[r].as_slice()
    }
}

/// The rule set that the lines of `content` write, one rule to a line in the
/// order of the lines; or the first line whose number of symbols is not
/// `width`.
pub fn load_data(content: &str, width: usize) -> (r: Result<RuleSet, WidthError>)
    ensures
        match r {
            Ok(set) => {
                &&& set@ == rule_rows(content@)
                &&& set.spec_width() == width
                &&& first_misfit(rule_rows(content@), width as nat) is None
            },
            Err(e) => {
                &&& first_misfit(rule_rows(content@), width as nat) == Some(e.line as int)
                &&& e.symbols == rule_rows(content@)[e.line as int].len()
            },
        },
{
    let chars = chars_of(content);
    let mut lines = split(chars.as_slice(), '\n');
    assert(views(lines@).len() == lines@.len());
    if lines.len() > 0 && lines[lines.len() - 1].len() == 0 {
        let ghost all = lines@;
        lines.pop();
        assert(views(lines@) =~= views(all).drop_last());
    }
    let ghost rows = rule_rows(content@);
    assert(views(lines@) == text_lines(content@));
    let mut rules: Vec<Vec<u8>> = Vec::new();
    let mut k: usize = 0;
    assert(rows.take(0) =~= Seq::empty());
    while k < lines.len()
        invariant
            k <= lines@.len(),
            views(lines@) == text_lines(content@),
            rows == rule_rows(content@),
            rules@.len() == k,
            forall|a: int| 0 <= a < k ==> (#[trigger] rules@[a])@ == rows[a],
            first_misfit(rows.take(k as int), width as nat) is None,
        decreases lines@.len() - k,
    {
        let rule = symbols(lines[k]);
        proof {
            assert(views(lines@)[k as int] == lines@[k as int]@);
            let upto = rows.take(k + 1);
            assert(upto.drop_last() =~= rows.take(k as int));
            assert(upto.last() == rule@);
        }
        if rule.len() != width {
            proof {
                lemma_misfit_stays(rows, width as nat, k + 1);
            }
            return Err(WidthError { line: k, symbols: rule.len() });
        }
        rules.push(rule);
        k += 1;
    }
    proof {
        assert(rows.take(k as int) =~= rows);
        lemma_first_misfit(rows, width as nat);
        let model = Seq::new(rules@.len(), |r: int| rules@[r]@);
        assert(model =~= rows);
        assert forall|r: int, c: int| 0 <= r < rows.len() && 0 <= c < width implies is_symbol(
            #[trigger] rows[r][c],
        ) by {
            lemma_symbols_in(text_lines(content@)[r]);
        }
        assert(is_rule_set(model, width as nat));
    }
    Ok(RuleSet { width, rules })
}

proof fn lemma_misfit_stays(rows: Seq<Seq<u8>>, width: nat, k: int)
    requires
        0 <= k <= rows.len(),
        first_misfit(rows.take(k), width) is Some,
    ensures
        first_misfit(rows, width) == first_misfit(rows.take(k), width),
    decreases rows.len() - k,
{
    if k == rows.len() {
        assert(rows.take(k) =~= rows);
    } else {
        let next = rows.take(k + 1);
        assert(next.drop_last() =~= rows.take(k));
        lemma_misfit_stays(rows, width, k + 1);
    }
}

} // verus!
