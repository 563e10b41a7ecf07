//! The statement-file parser: decodes the single-byte Western European
//! encoding the bank exports use, skips the fixed seven-line header, and
//! parses the remaining lines into transactions, dropping malformed lines.

use vstd::prelude::*;

use encoding::all::ISO_8859_1;
use encoding::{DecoderTrap, Encoding};

use crate::date::Date;
use crate::text::spec_lines;
use crate::transfer::{spec_parse_line, Transfer, TransferData};

verus! {

/// Number of boilerplate header lines at the top of every statement file.
pub const HEADER_LINES: usize = 7;

/// The decoded text of an ISO-8859-1 byte string, as the bytes of its UTF-8
/// form: each input byte is the code point of one character.
pub open spec fn utf8_of_latin1(s: Seq<u8>) -> Seq<u8> {
    s.flat_map(
        |b: u8|
            if b < 128 {
                seq![b]
            } else {
                seq![(192 + b / 64) as u8, (128 + b % 64) as u8]
            },
    )
}

/// Relies on `encoding`'s `ISO_8859_1.decode`: every byte decodes to the
/// character with that code point (the codec's forward table is the
/// identity), so strict decoding never fails and the unwrap cannot panic;
/// `String::into_bytes` then yields the UTF-8 form of those characters.
#[verifier::external_body]
fn decode_latin1(bytes: &Vec<u8>) -> (r: Vec<u8>)
    ensures
        r@ == utf8_of_latin1(bytes@),
{
    ISO_8859_1.decode(bytes, DecoderTrap::Strict).unwrap().into_bytes()
}

/// The statement lines once the fixed header is skipped.
pub open spec fn drop_header(ls: Seq<Seq<u8>>) -> Seq<Seq<u8>> {
    if ls.len() <= HEADER_LINES {
        Seq::empty()
    } else {
        ls.skip(HEADER_LINES as int)
    }
}

/// The transactions parsed from a list of lines, in order, with rejected
/// lines dropped.
pub open spec fn spec_parse_transfers(ls: Seq<Seq<u8>>, d: Date) -> Seq<TransferData>
    decreases ls.len(),
{
    if ls.len() == 0 {
        Seq::empty()
    } else {
        spec_parse_transfers(ls.drop_last(), d) + match spec_parse_line(ls.last(), d) {
            Option::Some(t) => seq![t],
            Option::None => Seq::empty(),
        }
    }
}

/// Parses one month's statement: the month's date gives rejected lines
/// their fallback date.
pub struct BankFileParser {
    pub date: Date,
}

impl BankFileParser {
    pub fn new(date: Date) -> (r: Self)
        ensures
            r.date == date,
    {
        BankFileParser { date }
    }

    /// The statement file's name for this parser's month: `YYYY-MM.tsv`.
    pub fn get_filename(&self) -> (r: Vec<u8>)
        requires
            self.date.valid(),
        ensures
            r@ == spec_filename(self.date),
    {
        let y = self.date.year;
        let m = self.date.month;
        let mut r: Vec<u8> = Vec::new();
        r.push(48 + ((y / 1000) as u8));
        r.push(48 + (((y / 100) % 10) as u8));
        r.push(48 + (((y / 10) % 10) as u8));
        r.push(48 + ((y % 10) as u8));
        r.push(crate::date::DASH);
        r.push(48 + (m / 10));
        r.push(48 + (m % 10));
        r.push(46);
        r.push(116);
        r.push(115);
        r.push(118);
        proof {
            assert(r@ =~= spec_filename(self.date));
        }
        r
    }

    /// Decodes the raw statement bytes, skips the seven header lines, and
    /// parses every remaining line, dropping the malformed ones.
    pub fn parse_bytes(&self, raw: &Vec<u8>) -> (r: Vec<Transfer>)
        ensures
            r.deep_view() == spec_parse_transfers(
                drop_header(spec_lines(utf8_of_latin1(raw@))),
                self.date,
            ),
    {
        let text = decode_latin1(raw);
        let ls = crate::text::split_lines(&text);
        let ghost dh = drop_header(spec_lines(utf8_of_latin1(raw@)));
        let mut out: Vec<Transfer> = Vec::new();
        let mut i: usize = HEADER_LINES;
        proof {
            if ls.deep_view().len() > HEADER_LINES {
                assert(forall|k: int|
                    0 <= k < dh.len() ==> dh[k] == ls.deep_view()[k + HEADER_LINES]);
            }
            assert(dh.take(0) =~= Seq::<Seq<u8>>::empty());
            assert(out.deep_view() =~= spec_parse_transfers(dh.take(0), self.date));
        }
        while i < ls.len()
            invariant
                HEADER_LINES <= i,
                ls.len() <= HEADER_LINES ==> i == HEADER_LINES,
                ls.len() > HEADER_LINES ==> i <= ls.len(),
                dh == drop_header(ls.deep_view()),
                ls.deep_view().len() == ls.len(),
                dh.len() == if ls.len() <= HEADER_LINES { 0int } else { ls.len() - HEADER_LINES },
                forall|k: int| 0 <= k < dh.len() ==> dh[k] == ls.deep_view()[k + HEADER_LINES],
                out.deep_view() == spec_parse_transfers(dh.take(i - HEADER_LINES), self.date),
            decreases ls.len() - i,
        {
            proof {
                assert(dh.take(i - HEADER_LINES + 1).drop_last() =~= dh.take(i - HEADER_LINES));
                assert(dh.take(i - HEADER_LINES + 1).last() == dh[i - HEADER_LINES]);
                assert(ls@[i as int].deep_view() =~= ls@[i as int]@);
            }
            let line = &ls[i];
            let ghost old_out = out.deep_view();
            match Transfer::from_str(line, self.date) {
                Result::Ok(t) => {
                    out.push(t);
                    proof {
                        assert(out.deep_view() =~= old_out.push(
                            spec_parse_transfers(dh.take(i - HEADER_LINES + 1), self.date).last(),
                        ));
                        assert(out.deep_view() =~= spec_parse_transfers(
                            dh.take(i - HEADER_LINES + 1),
                            self.date,
                        ));
                    }
                },
                Result::Err(_) => {
                    proof {
                        assert(out.deep_view() =~= spec_parse_transfers(
                            dh.take(i - HEADER_LINES + 1),
                            self.date,
                        ));
                    }
                },
            }
            i += 1;
        }
        proof {
            assert(dh.take(dh.len() as int) =~= dh);
            if ls.len() <= HEADER_LINES {
                assert(dh =~= Seq::<Seq<u8>>::empty());
                assert(dh.take(0) =~= dh);
            }
        }
        out
    }
}

/// The `YYYY-MM.tsv` file name for the month of `d`.
pub open spec fn spec_filename(d: Date) -> Seq<u8> {
    seq![
        (48 + d.year / 1000) as u8,
        (48 + (d.year / 100) % 10) as u8,
        (48 + (d.year / 10) % 10) as u8,
        (48 + d.year % 10) as u8,
        crate::date::DASH,
        (48 + d.month / 10) as u8,
        (48 + d.month % 10) as u8,
        46u8,
        116u8,
        115u8,
        118u8,
    ]
}

} // verus!
