use vstd::prelude::*;

verus! {

/// A value of the language. Both variants are numbers in IEEE-754 binary64:
/// a literal stands for the number nearest to its decimal digits, and a
/// computed number is given by its bit pattern.
#[derive(Debug)]
pub enum Value {
    /// A number literal, as the characters written in the source.
    Literal(Vec<char>),
    /// A computed number, as the 64 bits of its binary64 encoding.
    Number(u64),
}

/// What a [`Value`] holds, as mathematical data.
pub ghost enum ValueView {
    Literal(Seq<char>),
    Number(u64),
}

impl View for Value {
    type V = ValueView;

    open spec fn view(&self) -> ValueView {
        match self {
            Value::Literal(digits) => ValueView::Literal(digits@),
            Value::Number(bits) => ValueView::Number(*bits),
        }
    }
}

/// The views of a sequence of values, item by item.
pub open spec fn views(values: Seq<Value>) -> Seq<ValueView> {
    values.map_values(|v: Value| v@)
}

impl Value {
    /// A value equal to this one.
    pub fn duplicate(&self) -> (r: Value)
        ensures
            r@ == self@,
    {
        match self {
            Value::Literal(digits) => {
                let mut copy: Vec<char> = Vec::new();
                let mut i: usize = 0;
                while i < digits.len()
                    invariant
                        i <= digits.len(),
                        copy@ == digits@.take(i as int),
                    decreases digits.len() - i,
                {
                    copy.push(digits[i]);
                    i += 1;
                    assert(digits@.take(i as int) == digits@.take(i - 1).push(digits@[i - 1]));
                }
                assert(digits@.take(i as int) == digits@);
                Value::Literal(copy)
            },
            Value::Number(bits) => Value::Number(*bits),
        }
    }
}

} // verus!
