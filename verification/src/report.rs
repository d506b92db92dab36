//! A transaction as a report for people to read.

use crate::hex_text::{hex_encode, hex_text};
use crate::input::{TransactionInput, TransactionInputView};
use crate::transaction::{BitcoinTransaction, BitcoinTransactionView};
use vstd::prelude::*;
use vstd::string::StringExecFns;

verus! {

/// The character for a number below ten.
pub open spec fn decimal_digit(digit: nat) -> char {
    ('0' as nat + digit) as char
}

/// `n` in decimal, without leading zeros.
pub open spec fn decimal_text(n: nat) -> Seq<char>
    decreases n,
{
    if n < 10 {
        seq![decimal_digit(n)]
    } else {
        decimal_text(n / 10).push(decimal_digit(n % 10))
    }
}

/// One line of a report: a label, a value, and a line break.
pub open spec fn report_line(label: Seq<char>, value: Seq<char>) -> Seq<char> {
    label + value + "\n"@
}

/// The line that opens the description of the input at position `index`.
pub open spec fn input_heading(index: nat) -> Seq<char> {
    "Input "@ + decimal_text(index) + ":\n"@
}

/// The line for a script: its length in bytes, then the bytes in
/// hexadecimal.
pub open spec fn script_line(script: Seq<u8>) -> Seq<char> {
    "  Script Sig ("@ + decimal_text(script.len()) + " bytes): "@ + hex_text(script) + "\n"@
}

/// The five lines that describe the input at position `index`.
pub open spec fn input_report(index: nat, input: TransactionInputView) -> Seq<char> {
    input_heading(index) + report_line(
        "  Previous Output Txid: "@,
        hex_text(input.previous_output.txid),
    ) + report_line(
        "  Previous Output Vout: "@,
        decimal_text(input.previous_output.vout as nat),
    ) + script_line(input.script_sig) + report_line(
        "  Sequence: "@,
        decimal_text(input.sequence as nat),
    )
}

/// The lines for the first `count` of `inputs`, in order.
pub open spec fn inputs_report(inputs: Seq<TransactionInputView>, count: nat) -> Seq<char>
    decreases count,
{
    if count == 0 {
        Seq::empty()
    } else {
        inputs_report(inputs, (count - 1) as nat) + input_report(
            (count - 1) as nat,
            inputs[count - 1],
        )
    }
}

/// The whole report: the version, the lock time, then every input.
pub open spec fn transaction_report(tx: BitcoinTransactionView) -> Seq<char> {
    report_line("Version: "@, decimal_text(tx.version as nat)) + report_line(
        "Lock Time: "@,
        decimal_text(tx.lock_time as nat),
    ) + inputs_report(tx.inputs, tx.inputs.len())
}

/// The text of one decimal digit.
fn digit_text(digit: u64) -> (text: &'static str)
    requires
        digit < 10,
    ensures
        text@ == seq![decimal_digit(digit as nat)],
{
    proof {
        reveal_strlit("0");
        reveal_strlit("1");
        reveal_strlit("2");
        reveal_strlit("3");
        reveal_strlit("4");
        reveal_strlit("5");
        reveal_strlit("6");
        reveal_strlit("7");
        reveal_strlit("8");
        reveal_strlit("9");
    }
    let text = if digit == 0 {
        "0"
    } else if digit == 1 {
        "1"
    } else if digit == 2 {
        "2"
    } else if digit == 3 {
        "3"
    } else if digit == 4 {
        "4"
    } else if digit == 5 {
        "5"
    } else if digit == 6 {
        "6"
    } else if digit == 7 {
        "7"
    } else if digit == 8 {
        "8"
    } else {
        "9"
    };
    assert(text@ =~= seq![decimal_digit(digit as nat)]);
    text
}

/// Appends `n` in decimal to `out`.
pub fn push_decimal(out: &mut String, n: u64)
    ensures
        final(out)@ == old(out)@ + decimal_text(n as nat),
    decreases n,
{
    if n >= 10 {
        push_decimal(out, n / 10);
    }
    out.append(digit_text(n % 10));
    assert(out@ =~= old(out)@ + decimal_text(n as nat));
}

/// `n` in decimal.
pub fn decimal(n: u64) -> (text: String)
    ensures
        text@ == decimal_text(n as nat),
{
    let mut text = String::new();
    push_decimal(&mut text, n);
    assert(text@ =~= decimal_text(n as nat));
    text
}

/// Appends one line to `out`: `label`, `value`, and a line break.
fn push_line(out: &mut String, label: &str, value: &str)
    ensures
        final(out)@ == old(out)@ + report_line(label@, value@),
{
    out.append(label);
    out.append(value);
    out.append("\n");
    assert(out@ =~= old(out)@ + report_line(label@, value@));
}

/// Appends to `out` the line that opens the input at position `index`.
fn push_input_heading(out: &mut String, index: usize)
    ensures
        final(out)@ == old(out)@ + input_heading(index as nat),
{
    out.append("Input ");
    push_decimal(out, index as u64);
    out.append(":\n");
    assert(out@ =~= old(out)@ + input_heading(index as nat));
}

/// Appends to `out` the line for a script.
fn push_script_line(out: &mut String, script: &[u8])
    ensures
        final(out)@ == old(out)@ + script_line(script@),
{
    out.append("  Script Sig (");
    push_decimal(out, script.len() as u64);
    out.append(" bytes): ");
    out.append(hex_encode(script).as_str());
    out.append("\n");
    assert(out@ =~= old(out)@ + script_line(script@));
}

impl TransactionInput {
    /// Appends to `out` the lines that describe this input, which stands at
    /// position `index` in its transaction.
    pub fn push_report(&self, out: &mut String, index: usize)
        ensures
            final(out)@ == old(out)@ + input_report(index as nat, self@),
    {
        push_input_heading(out, index);
        push_line(out, "  Previous Output Txid: ", self.previous_output.txid.to_text().as_str());
        push_line(
            out,
            "  Previous Output Vout: ",
            decimal(self.previous_output.vout as u64).as_str(),
        );
        push_script_line(out, self.script_sig.bytes.as_slice());
        push_line(out, "  Sequence: ", decimal(self.sequence as u64).as_str());
        assert(out@ =~= old(out)@ + input_report(index as nat, self@));
    }
}

impl BitcoinTransaction {
    /// The transaction as a report of several lines: the version, the lock
    /// time, and for every input its position, the output it spends, its
    /// script and its sequence number.
    pub fn to_string(&self) -> (text: String)
        ensures
            text@ == transaction_report(self@),
    {
        let mut text = String::new();
        push_line(&mut text, "Version: ", decimal(self.version as u64).as_str());
        push_line(&mut text, "Lock Time: ", decimal(self.lock_time as u64).as_str());
        let ghost head = text@;
        assert(head =~= report_line("Version: "@, decimal_text(self.version as nat)) + report_line(
            "Lock Time: "@,
            decimal_text(self.lock_time as nat),
        ));
        let mut i: usize = 0;
        while i < self.inputs.len()
            invariant
                i <= self.inputs.len(),
                text@ == head + inputs_report(self@.inputs, i as nat),
            decreases self.inputs.len() - i,
        {
            self.inputs[i].push_report(&mut text, i);
            i = i + 1;
            assert(text@ =~= head + inputs_report(self@.inputs, i as nat));
        }
        text
    }
}

} // verus!
