use vstd::prelude::*;

verus! {

/// One line of user input after validation: a number, a cancellation, or
/// something unusable.
#[derive(Clone, Copy, Debug)]
pub enum Input {
    Num(usize),
    Cancel,
    Invalid,
}

/// The classification of one read line: a cancelled read wins over
/// everything, an unparsable line is invalid, and a parsed number is
/// invalid when it exceeds the number of offered menu choices.
pub open spec fn input_choice(cancelled: bool, parsed: Option<usize>, limit: Option<
    usize,
>) -> Input {
    if cancelled {
        Input::Cancel
    } else {
        match parsed {
            None => Input::Invalid,
            Some(v) => match limit {
                Some(l) => if v > l {
                    Input::Invalid
                } else {
                    Input::Num(v)
                },
                None => Input::Num(v),
            },
        }
    }
}

impl Input {
    /// The number held by a `Num` value.
    pub open spec fn num_of(self) -> usize {
        match self {
            Input::Num(n) => n,
            _ => 0,
        }
    }

    pub fn is_cancel(&self) -> (r: bool)
        ensures
            r == (*self is Cancel),
    {
        match self {
            Input::Cancel => true,
            _ => false,
        }
    }

    pub fn is_invalid(&self) -> (r: bool)
        ensures
            r == (*self is Invalid),
    {
        match self {
            Input::Invalid => true,
            _ => false,
        }
    }

    /// The number held by this input, which must be a `Num`.
    pub fn get_num(&self) -> (n: usize)
        requires
            *self is Num,
        ensures
            n == self.num_of(),
    {
        match self {
            Input::Num(k) => *k,
            _ => vstd::pervasive::unreached(),
        }
    }

    /// Classify one read line from its parts: whether it was cancelled, the
    /// number it parsed to, and the count of menu choices when a menu was
    /// shown.
    pub fn classify(cancelled: bool, parsed: Option<usize>, limit: Option<usize>) -> (r: Input)
        ensures
            r == input_choice(cancelled, parsed, limit),
    {
        if cancelled {
            return Input::Cancel;
        }
        match parsed {
            None => Input::Invalid,
            Some(v) => {
                match limit {
                    Some(l) => if v > l {
                        Input::Invalid
                    } else {
                        Input::Num(v)
                    },
                    None => Input::Num(v),
                }
            },
        }
    }
}

} // verus!
