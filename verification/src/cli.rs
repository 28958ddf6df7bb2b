//! Startup policy: the operator's arguments and the port selection rules.
//!
//! The unverified rim collects `argv` and performs the exits and panics;
//! the decisions — which argument shapes are accepted, which indices name
//! a device — are made here.

use vstd::prelude::*;

use crate::text::{
    all_digits, digits_val, is_digit, is_digit_char, lemma_digits_val_prefix_le,
    lemma_digits_val_step,
};

verus! {

/// Why a port selection is rejected.
#[derive(Clone, Copy, Debug, PartialEq, Eq, Structural)]
pub enum PortError {
    /// No MIDI output devices were found at all.
    NoOutputs,
    /// The requested output index is outside the filtered output list.
    OutputOutOfRange,
    /// The requested input index is outside the filtered input list.
    InputOutOfRange,
}

/// The operator's arguments: `<program> <SERVER_IP> <OUTPUT_ID>
/// [<INPUT_ID>]`. An accepted invocation yields the broker address, the
/// output index text, and the input index text (empty when absent).
pub fn get_vars(args: &Vec<String>) -> (r: Option<(String, String, String)>)
    ensures
        r is Some <==> (args@.len() == 3 || args@.len() == 4),
        r matches Some(t) ==> t.0@ == args@[1]@ && t.1@ == args@[2]@,
        args@.len() == 3 ==> (r matches Some(t) && t.2@ == Seq::<char>::empty()),
        args@.len() == 4 ==> (r matches Some(t) && t.2@ == args@[3]@),
{
    if args.len() == 3 {
        Some((args[1].clone(), args[2].clone(), String::new()))
    } else if args.len() == 4 {
        Some((args[1].clone(), args[2].clone(), args[3].clone()))
    } else {
        None
    }
}

/// A 0-based port index: one or more decimal digits whose value fits.
pub open spec fn parse_index_spec(s: Seq<char>) -> Option<usize> {
    if all_digits(s) && digits_val(s) <= usize::MAX {
        Option::Some(digits_val(s) as usize)
    } else {
        Option::None
    }
}

/// Parse a 0-based port index from an argument.
pub fn parse_index(s: &str) -> (r: Option<usize>)
    ensures
        r == parse_index_spec(s@),
{
    let n = s.unicode_len();
    if n == 0 {
        return None;
    }
    let mut val: usize = 0;
    let mut i: usize = 0;
    while i < n
        invariant
            i <= n,
            n == s@.len(),
            forall|j: int| 0 <= j < i ==> is_digit(s@[j]),
            val == digits_val(s@.take(i as int)),
        decreases n - i,
    {
        let c = s.get_char(i);
        if !is_digit_char(c) {
            return None;
        }
        let d: usize = (c as u32 - 48) as usize;
        proof {
            lemma_digits_val_step(s@, i as int);
        }
        if val > (usize::MAX - d) / 10 {
            proof {
                assert(val * 10 + d > usize::MAX) by (nonlinear_arith)
                    requires
                        val > (usize::MAX - d) / 10,
                        d <= 9,
                        val >= 0,
                ;
                if all_digits(s@) {
                    lemma_digits_val_prefix_le(s@, i as int + 1);
                }
            }
            return None;
        }
        proof {
            assert(val * 10 + d <= usize::MAX) by (nonlinear_arith)
                requires
                    val <= (usize::MAX - d) / 10,
                    d <= 9,
                    val >= 0,
            ;
        }
        val = val * 10 + d;
        i = i + 1;
    }
    proof {
        assert(s@.take(n as int) =~= s@);
    }
    Some(val)
}

/// The output the operator picked. The index must name a device in the
/// filtered output list; with no devices at all, or an index out of
/// range, startup is fatal.
pub fn select_output(out_count: usize, output_id: usize) -> (r: Result<usize, PortError>)
    ensures
        r is Ok <==> output_id < out_count,
        r matches Ok(i) ==> i == output_id,
        out_count == 0 ==> r == Result::<usize, PortError>::Err(PortError::NoOutputs),
        out_count > 0 && output_id >= out_count ==> r == Result::<usize, PortError>::Err(
            PortError::OutputOutOfRange,
        ),
{
    if out_count == 0 {
        Err(PortError::NoOutputs)
    } else if output_id >= out_count {
        Err(PortError::OutputOutOfRange)
    } else {
        Ok(output_id)
    }
}

/// The inputs to subscribe: every enumerated input when the operator
/// chose none (an empty list is render-only mode), or just the chosen
/// one. An index strictly beyond the list is fatal; an index equal to
/// its length subscribes nothing.
pub fn select_inputs(in_count: usize, input_id: Option<usize>) -> (r: Result<
    Vec<usize>,
    PortError,
>)
    ensures
        input_id is None ==> (r matches Ok(v) && v@.len() == in_count && (forall|i: int|
            0 <= i < in_count ==> v@[i] == i)),
        (input_id is Some && input_id->Some_0 < in_count) ==> (r matches Ok(v) && v@ == seq![
            input_id->Some_0,
        ]),
        (input_id is Some && input_id->Some_0 == in_count) ==> (r matches Ok(v) && v@ == Seq::<
            usize,
        >::empty()),
        (input_id is Some && input_id->Some_0 > in_count) ==> r == Result::<
            Vec<usize>,
            PortError,
        >::Err(PortError::InputOutOfRange),
{
    match input_id {
        None => {
            let mut v: Vec<usize> = Vec::new();
            let mut i: usize = 0;
            while i < in_count
                invariant
                    i <= in_count,
                    v@.len() == i,
                    forall|j: int| 0 <= j < i ==> v@[j] == j,
                decreases in_count - i,
            {
                v.push(i);
                i = i + 1;
            }
            Ok(v)
        },
        Some(i) => {
            if i > in_count {
                Err(PortError::InputOutOfRange)
            } else if i == in_count {
                let v: Vec<usize> = Vec::new();
                proof {
                    assert(v@ =~= Seq::<usize>::empty());
                }
                Ok(v)
            } else {
                let mut v: Vec<usize> = Vec::new();
                v.push(i);
                proof {
                    assert(v@ =~= seq![i]);
                }
                Ok(v)
            }
        },
    }
}

} // verus!
