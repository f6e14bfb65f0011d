use vstd::prelude::*;

use crate::chars::{is_blank, is_blank_vec, split_chars, split_on, starts_with_chars, str_chars};
use crate::error::CascError;
use crate::text::{chars_to_string, lemma_decode_prefix_full, utf8_decode_all};
use crate::bytes::ByteReader;

verus! {

broadcast use vstd::std_specs::vec::group_vec_axioms;

/// The line with one trailing carriage return removed.
pub open spec fn strip_cr(l: Seq<char>) -> Seq<char> {
    if l.len() > 0 && l.last() == '\r' {
        l.drop_last()
    } else {
        l
    }
}

/// The lines of a text: split on line feeds, one trailing empty line
/// dropped, and a trailing carriage return removed from each line.
pub open spec fn raw_lines(s: Seq<char>) -> Seq<Seq<char>> {
    let parts = split_on(s, seq!['\n']);
    let kept = if parts.len() > 0 && parts.last().len() == 0 {
        parts.drop_last()
    } else {
        parts
    };
    Seq::new(kept.len(), |i: int| strip_cr(kept[i]))
}

/// Whether a line survives blank-line and comment filtering.
pub open spec fn line_kept(l: Seq<char>, comment: Option<Seq<char>>) -> bool {
    &&& !is_blank(l)
    &&& match comment {
        None => true,
        Some(c) => c.len() == 0 || !(c.len() <= l.len() && l.take(c.len() as int) == c),
    }
}

/// The fields of one line; an empty delimiter leaves the line whole.
pub open spec fn row_of_line(l: Seq<char>, d: Seq<char>) -> Seq<Seq<char>> {
    if d.len() >= 1 {
        split_on(l, d)
    } else {
        seq![l]
    }
}

/// The rows of the given lines, in order, after filtering.
pub open spec fn rows_of_lines(
    ls: Seq<Seq<char>>,
    d: Seq<char>,
    comment: Option<Seq<char>>,
) -> Seq<Seq<Seq<char>>>
    decreases ls.len(),
{
    if ls.len() == 0 {
        Seq::<Seq<Seq<char>>>::empty()
    } else {
        let rest = rows_of_lines(ls.skip(1), d, comment);
        if line_kept(ls[0], comment) {
            seq![row_of_line(ls[0], d)].add(rest)
        } else {
            rest
        }
    }
}

/// What a delimiter-separated text denotes as rows of fields.
pub open spec fn dsv_rows_of(s: Seq<char>, d: Seq<char>, comment: Option<Seq<char>>) -> Seq<
    Seq<Seq<char>>,
> {
    rows_of_lines(raw_lines(s), d, comment)
}

/// Splits decoded text into its lines, as `raw_lines` describes them.
pub fn lines_vec(chars: &Vec<char>) -> (r: Vec<Vec<char>>)
    ensures
        r.deep_view() == raw_lines(chars@),
{
    let mut nl: Vec<char> = Vec::new();
    nl.push('\n');
    assert(nl@ =~= seq!['\n']);
    let mut parts = split_chars(chars, &nl);
    let ghost parts_v = parts.deep_view();
    proof {
        crate::chars::lemma_split_on_pending_len(Seq::<char>::empty(), chars@, seq!['\n']);
    }
    if parts.len() > 0 && parts[parts.len() - 1].len() == 0 {
        let _ = parts.pop();
        proof {
            assert(parts.deep_view() =~~= parts_v.drop_last());
        }
    }
    let ghost kept = parts.deep_view();
    let ghost lines = raw_lines(chars@);
    assert(lines.len() == kept.len());
    proof {
        assert forall|k: int| 0 <= k < kept.len() implies lines[k] == strip_cr(
            #[trigger] kept[k],
        ) by {}
    }
    let mut out: Vec<Vec<char>> = Vec::new();
    let mut i: usize = 0;
    while i < parts.len()
        invariant
            i <= parts@.len(),
            kept == parts.deep_view(),
            lines == raw_lines(chars@),
            lines.len() == kept.len(),
            forall|k: int| 0 <= k < kept.len() ==> lines[k] == strip_cr(#[trigger] kept[k]),
            out.deep_view().len() == i,
            forall|k: int| 0 <= k < i ==> #[trigger] out.deep_view()[k] == lines[k],
        decreases parts@.len() - i,
    {
        let mut line = parts[i].clone();
        proof {
            assert(line.deep_view() =~= line@);
            assert(line@ =~= kept[i as int]);
        }
        if line.len() > 0 && line[line.len() - 1] == '\r' {
            let _ = line.pop();
        }
        assert(line@ =~= lines[i as int]);
        let ghost odv = out.deep_view();
        let ghost lv = line@;
        out.push(line);
        proof {
            assert(out.deep_view() =~~= odv.push(lv));
        }
        i = i + 1;
    }
    proof {
        assert(out.deep_view() =~= raw_lines(chars@));
    }
    out
}

/// A delimiter-separated text file: rows of fields split on a fixed
/// delimiter, with blank lines and comment lines skipped.
#[derive(Debug)]
pub struct DSVFile {
    /// The delimiter string, as characters.
    pub delimiter: Vec<char>,
    /// The comment prefix, when one is set.
    pub comment: Option<Vec<char>>,
    /// The rows read so far, in file order.
    pub rows: Vec<Vec<String>>,
}

impl DSVFile {
    /// The delimiter the file splits fields on.
    pub open spec fn delim(&self) -> Seq<char> {
        self.delimiter@
    }

    /// The comment prefix the file skips lines by, when one is set.
    pub open spec fn comment_view(&self) -> Option<Seq<char>> {
        match self.comment {
            None => None,
            Some(c) => Some(c@),
        }
    }

    /// An empty file with the default comma delimiter.
    pub fn new() -> (r: DSVFile)
        ensures
            r.delim() == seq![','],
            r.comment_view() is None,
            r.rows@.len() == 0,
    {
        let mut delimiter: Vec<char> = Vec::new();
        delimiter.push(',');
        assert(delimiter@ =~= seq![',']);
        DSVFile { delimiter, comment: None, rows: Vec::new() }
    }

    /// An empty file with the given delimiter.
    pub fn with_delimiter(delimiter: &str) -> (r: DSVFile)
        ensures
            r.delim() == delimiter@,
            r.comment_view() is None,
            r.rows@.len() == 0,
    {
        DSVFile { delimiter: str_chars(delimiter), comment: None, rows: Vec::new() }
    }

    /// Parses a text with the given delimiter and optional comment prefix.
    pub fn from_text(content: Vec<u8>, delimiter: &str, comment: Option<&str>) -> (r: Result<
        DSVFile,
        CascError,
    >)
        ensures
            r is Ok <==> utf8_decode_all(content@) is Some,
            r matches Ok(f) ==> {
                &&& f.delim() == delimiter@
                &&& f.comment_view() == (match comment {
                    None => None::<Seq<char>>,
                    Some(c) => Some(c@),
                })
                &&& f.rows.deep_view() == dsv_rows_of(
                    utf8_decode_all(content@)->0,
                    delimiter@,
                    f.comment_view(),
                )
            },
    {
        let mut dsv = DSVFile {
            delimiter: str_chars(delimiter),
            comment: match comment {
                None => None,
                Some(c) => Some(str_chars(c)),
            },
            rows: Vec::new(),
        };
        match dsv.load(content) {
            Ok(()) => {
                proof {
                    let x = dsv_rows_of(
                        utf8_decode_all(content@)->0,
                        delimiter@,
                        dsv.comment_view(),
                    );
                    assert(Seq::<Seq<Seq<char>>>::empty().add(x) =~= x);
                }
                Ok(dsv)
            },
            Err(e) => Err(e),
        }
    }

    /// Parses a text and appends its rows; the text must be well-formed
    /// UTF-8, else nothing is appended and the error says so.
    pub fn load(&mut self, content: Vec<u8>) -> (r: Result<(), CascError>)
        ensures
            final(self).delim() == old(self).delim(),
            final(self).comment_view() == old(self).comment_view(),
            r is Ok <==> utf8_decode_all(content@) is Some,
            r is Ok ==> final(self).rows.deep_view() == old(self).rows.deep_view().add(
                dsv_rows_of(
                    utf8_decode_all(content@)->0,
                    old(self).delim(),
                    old(self).comment_view(),
                ),
            ),
            r is Err ==> final(self).rows@ == old(self).rows@,
    {
        let ghost content_v = content@;
        let len = content.len();
        let mut reader = ByteReader::new(content);
        proof {
            assert(content_v.skip(0) =~= content_v);
        }
        let chars = match reader.read_chars(len) {
            Ok(v) => v,
            Err(_) => {
                return Err(CascError::InvalidData(String::from_str("text is not valid UTF-8")));
            },
        };
        proof {
            lemma_decode_prefix_full(content_v, len as nat);
        }
        let ghost text = utf8_decode_all(content_v)->0;
        assert(chars@ == text);

        let mut nl: Vec<char> = Vec::new();
        nl.push('\n');
        assert(nl@ =~= seq!['\n']);
        let mut parts = split_chars(&chars, &nl);
        let ghost parts_v = parts.deep_view();
        proof {
            crate::chars::lemma_split_on_pending_len(Seq::<char>::empty(), text, seq!['\n']);
        }
        if parts.len() > 0 && parts[parts.len() - 1].len() == 0 {
            let _ = parts.pop();
            proof {
                assert(parts.deep_view() =~~= parts_v.drop_last());
            }
        }
        let ghost lines = raw_lines(text);
        assert(lines.len() == parts.deep_view().len());

        let ghost rows0 = old(self).rows.deep_view();
        let mut i: usize = 0;
        proof {
            assert(parts.deep_view().skip(0) =~= parts.deep_view());
            assert(lines.skip(0) =~= lines);
            assert(rows0.add(rows_of_lines(lines, old(self).delim(), old(self).comment_view()))
                =~= rows0.add(
                rows_of_lines(lines.skip(0), old(self).delim(), old(self).comment_view()),
            ));
        }
        while i < parts.len()
            invariant
                i <= parts@.len(),
                lines.len() == parts.deep_view().len(),
                forall|j: int| 0 <= j < lines.len() ==> lines[j] == strip_cr(
                    #[trigger] parts.deep_view()[j],
                ),
                self.delimiter@ == old(self).delim(),
                self.comment_view() == old(self).comment_view(),
                rows0.add(rows_of_lines(lines, old(self).delim(), old(self).comment_view()))
                    == self.rows.deep_view().add(
                    rows_of_lines(
                        lines.skip(i as int),
                        old(self).delim(),
                        old(self).comment_view(),
                    ),
                ),
            decreases parts@.len() - i,
        {
            proof {
                assert(lines.skip(i as int).skip(1) =~= lines.skip(i + 1));
            }
            let mut line = parts[i].clone();
            assert(line@ == parts.deep_view()[i as int]);
            if line.len() > 0 && line[line.len() - 1] == '\r' {
                let _ = line.pop();
            }
            assert(line@ =~= lines[i as int]);
            let kept = if is_blank_vec(&line) {
                false
            } else {
                match &self.comment {
                    None => true,
                    Some(c) => {
                        if c.len() == 0 {
                            true
                        } else {
                            !starts_with_chars(&line, c)
                        }
                    },
                }
            };
            assert(kept == line_kept(lines[i as int], old(self).comment_view()));
            if kept {
                let fields: Vec<Vec<char>> = if self.delimiter.len() >= 1 {
                    split_chars(&line, &self.delimiter)
                } else {
                    let mut one: Vec<Vec<char>> = Vec::new();
                    let lv = line.clone();
                    one.push(lv);
                    proof {
                        assert(one.deep_view() =~~= seq![lines[i as int]]);
                    }
                    one
                };
                assert(fields.deep_view() == row_of_line(lines[i as int], old(self).delim()));
                let mut row: Vec<String> = Vec::new();
                let mut j: usize = 0;
                while j < fields.len()
                    invariant
                        j <= fields@.len(),
                        row.deep_view() =~= fields.deep_view().take(j as int),
                    decreases fields@.len() - j,
                {
                    let f = fields[j].clone();
                    proof {
                        assert(f.deep_view() =~= f@);
                        assert(f@ =~= fields.deep_view()[j as int]);
                    }
                    let ghost rdv0 = row.deep_view();
                    let fs = chars_to_string(f);
                    let ghost sv = fs@;
                    row.push(fs);
                    proof {
                        assert(row.deep_view() =~~= rdv0.push(sv));
                        assert(rdv0.push(sv) =~= fields.deep_view().take(j + 1));
                    }
                    j = j + 1;
                }
                proof {
                    assert(row.deep_view() =~= fields.deep_view());
                }
                let ghost rows_before = self.rows.deep_view();
                self.rows.push(row);
                proof {
                    assert(self.rows.deep_view() =~~= rows_before.push(
                        row_of_line(lines[i as int], old(self).delim()),
                    ));
                    assert(rows_before.push(row_of_line(lines[i as int], old(self).delim())).add(
                        rows_of_lines(
                            lines.skip(i + 1),
                            old(self).delim(),
                            old(self).comment_view(),
                        ),
                    ) =~= rows_before.add(
                        seq![row_of_line(lines[i as int], old(self).delim())].add(
                            rows_of_lines(
                                lines.skip(i + 1),
                                old(self).delim(),
                                old(self).comment_view(),
                            ),
                        ),
                    ));
                }
            }
            i = i + 1;
        }
        proof {
            assert(lines.skip(i as int) =~= Seq::<Seq<char>>::empty());
            assert(rows0.add(rows_of_lines(lines, old(self).delim(), old(self).comment_view()))
                =~= self.rows.deep_view().add(Seq::<Seq<Seq<char>>>::empty()));
            assert(self.rows.deep_view().add(Seq::<Seq<Seq<char>>>::empty())
                =~= self.rows.deep_view());
        }
        Ok(())
    }

    /// The header row, when the file holds one: its first row.
    pub fn header(&self) -> (r: Option<&Vec<String>>)
        ensures
            self.rows@.len() > 0 ==> (r matches Some(v) && v@ == self.rows@[0]@),
            self.rows@.len() == 0 ==> r is None,
    {
        if self.rows.len() > 0 {
            Some(&self.rows[0])
        } else {
            None
        }
    }
}

} // verus!
