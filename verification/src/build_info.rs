use vstd::prelude::*;

use crate::chars::{split_on, split_chars, str_chars};
use crate::dsv::{dsv_rows_of, DSVFile};
use crate::error::CascError;
use crate::text::{chars_to_string, utf8_decode_all};

verus! {

broadcast use vstd::std_specs::vec::group_vec_axioms;

/// What one build-info variable holds.
pub struct VariableV {
    /// The variable's name, from the header's `NAME!TYPE` token.
    pub name: Seq<char>,
    /// The variable's type tag, from the same token.
    pub var_type: Seq<char>,
    /// The variable's value, from the matching data column.
    pub value: Seq<char>,
}

/// A variable entry of the build info: a name, a type tag and a value.
#[derive(Debug, Clone, PartialEq, Eq)]
pub struct Variable {
    /// The name of the variable.
    pub name: String,
    /// The type tag of the variable.
    pub var_type: String,
    /// The value of the variable.
    pub value: String,
}

impl View for Variable {
    type V = VariableV;

    open spec fn view(&self) -> VariableV {
        VariableV { name: self.name@, var_type: self.var_type@, value: self.value@ }
    }
}

impl Variable {
    /// A variable with the given name, type tag and value.
    pub fn new(name: String, var_type: String, value: String) -> (r: Variable)
        ensures
            r@.name == name@,
            r@.var_type == var_type@,
            r@.value == value@,
    {
        Variable { name, var_type, value }
    }
}

/// The variable that a later column most recently set under this name.
pub open spec fn var_lookup(vars: Seq<VariableV>, name: Seq<char>) -> Option<VariableV>
    decreases vars.len(),
{
    if vars.len() == 0 {
        None
    } else if vars.last().name == name {
        Some(vars.last())
    } else {
        var_lookup(vars.drop_last(), name)
    }
}

/// The rows of a build-info text: pipe-delimited with `#` comments.
pub open spec fn bi_rows(s: Seq<char>) -> Seq<Seq<Seq<char>>> {
    dsv_rows_of(s, seq!['|'], Some(seq!['#']))
}

/// Whether a build-info text is well-formed: it decodes, holds at least a
/// header row and a data row of equal arity, and every header token
/// carries a `!`-separated type.
pub open spec fn bi_ok(sb: Seq<u8>) -> bool {
    &&& utf8_decode_all(sb) is Some
    &&& {
        let rows = bi_rows(utf8_decode_all(sb)->0);
        &&& rows.len() >= 2
        &&& rows[0].len() == rows[1].len()
        &&& forall|i: int|
            0 <= i < rows[0].len() ==> split_on(#[trigger] rows[0][i], seq!['!']).len() >= 2
    }
}

/// The variables a well-formed build-info text defines, in column order.
pub open spec fn bi_columns(sb: Seq<u8>) -> Seq<VariableV> {
    let rows = bi_rows(utf8_decode_all(sb)->0);
    Seq::new(
        rows[0].len(),
        |i: int|
            VariableV {
                name: split_on(rows[0][i], seq!['!'])[0],
                var_type: split_on(rows[0][i], seq!['!'])[1],
                value: rows[1][i],
            },
    )
}

/// Build information from a `.build.info` text: a header row of
/// `NAME!TYPE` tokens over one row of values.
#[derive(Debug)]
pub struct CascBuildInfo {
    /// The variables, in the order their columns set them.
    pub variables: Vec<Variable>,
}

impl CascBuildInfo {
    /// The views of the stored variables, in order.
    pub open spec fn vars_view(&self) -> Seq<VariableV> {
        Seq::new(self.variables@.len(), |i: int| self.variables@[i]@)
    }

    /// An empty build info.
    pub fn new() -> (r: CascBuildInfo)
        ensures
            r.vars_view() =~= Seq::<VariableV>::empty(),
    {
        CascBuildInfo { variables: Vec::new() }
    }

    /// Parses a build-info text and returns the variables it defines.
    pub fn from_text(content: Vec<u8>) -> (r: Result<CascBuildInfo, CascError>)
        ensures
            r is Ok <==> bi_ok(content@),
            utf8_decode_all(content@) is Some && !bi_ok(content@) ==> r is Err && r->Err_0
                is FileCorrupted,
            r matches Ok(b) ==> b.vars_view() == bi_columns(content@),
    {
        let mut instance = CascBuildInfo::new();
        match instance.load(content) {
            Ok(()) => {
                proof {
                    assert(Seq::<VariableV>::empty().add(bi_columns(content@)) =~= bi_columns(
                        content@,
                    ));
                }
                Ok(instance)
            },
            Err(e) => Err(e),
        }
    }

    /// The value of the variable with the given name, or the default when
    /// no column set it.
    pub fn get(&self, var_name: &str, default_value: &str) -> (r: String)
        ensures
            r@ == (match var_lookup(self.vars_view(), var_name@) {
                Some(v) => v.value,
                None => default_value@,
            }),
    {
        let key = String::from_str(var_name);
        let mut i: usize = self.variables.len();
        proof {
            assert(self.vars_view().take(i as int) =~= self.vars_view());
        }
        while i > 0
            invariant
                i <= self.variables@.len(),
                var_lookup(self.vars_view(), var_name@) == var_lookup(
                    self.vars_view().take(i as int),
                    var_name@,
                ),
                key@ == var_name@,
            decreases i,
        {
            i = i - 1;
            if self.variables[i].name == key {
                assert(self.vars_view().take(i + 1).last() == self.vars_view()[i as int]);
                return self.variables[i].value.clone();
            }
            proof {
                assert(self.vars_view().take(i + 1).drop_last() =~= self.vars_view().take(
                    i as int,
                ));
                assert(self.vars_view().take(i + 1).last() == self.vars_view()[i as int]);
            }
        }
        proof {
            assert(self.vars_view().take(0) =~= Seq::<VariableV>::empty());
        }
        String::from_str(default_value)
    }

    /// Parses a build-info text and appends the variables it defines; a
    /// malformed text appends nothing and reports why.
    pub fn load(&mut self, content: Vec<u8>) -> (r: Result<(), CascError>)
        ensures
            r is Ok <==> bi_ok(content@),
            utf8_decode_all(content@) is Some && !bi_ok(content@) ==> r is Err && r->Err_0
                is FileCorrupted,
            r is Ok ==> final(self).vars_view() == old(self).vars_view().add(
                bi_columns(content@),
            ),
            r is Err ==> final(self).vars_view() == old(self).vars_view(),
    {
        proof {
            reveal_strlit("|");
            reveal_strlit("#");
        }
        let ghost sb = content@;
        let dsv = match DSVFile::from_text(content, "|", Some("#")) {
            Ok(d) => d,
            Err(e) => {
                return Err(e);
            },
        };
        proof {
            assert("|"@ =~= seq!['|']);
            assert("#"@ =~= seq!['#']);
        }
        let ghost text = utf8_decode_all(sb)->0;
        assert(dsv.rows.deep_view() == bi_rows(text));
        if dsv.rows.len() < 2 {
            return Err(CascError::FileCorrupted(String::from_str("Not enough rows")));
        }
        let header = &dsv.rows[0];
        let data = &dsv.rows[1];
        if header.len() != data.len() {
            return Err(
                CascError::FileCorrupted(String::from_str("Header/data length mismatch")),
            );
        }
        let mut bang: Vec<char> = Vec::new();
        bang.push('!');
        assert(bang@ =~= seq!['!']);
        let ghost vars0 = old(self).vars_view();
        let ghost rows = bi_rows(text);
        let mut new_vars: Vec<Variable> = Vec::new();
        let mut i: usize = 0;
        while i < header.len()
            invariant
                i <= header@.len(),
                header@.len() == data@.len(),
                sb == content@,
                utf8_decode_all(sb) is Some,
                text == utf8_decode_all(sb)->0,
                rows == bi_rows(text),
                rows.len() >= 2,
                header.deep_view() == rows[0],
                data.deep_view() == rows[1],
                bang@ == seq!['!'],
                self == old(self),
                new_vars@.len() == i,
                forall|k: int|
                    0 <= k < i ==> split_on(#[trigger] rows[0][k], seq!['!']).len() >= 2,
                forall|k: int|
                    0 <= k < i ==> #[trigger] new_vars@[k]@ == (VariableV {
                        name: split_on(rows[0][k], seq!['!'])[0],
                        var_type: split_on(rows[0][k], seq!['!'])[1],
                        value: rows[1][k],
                    }),
            decreases header@.len() - i,
        {
            let info_chars = str_chars(header[i].as_str());
            proof {
                assert(header[i as int]@ == rows[0][i as int]);
            }
            let split = split_chars(&info_chars, &bang);
            assert(split.deep_view() == split_on(rows[0][i as int], seq!['!']));
            if split.len() < 2 {
                proof {
                    assert(split.deep_view().len() == split@.len());
                    assert(split_on(rows[0][i as int], seq!['!']).len() < 2);
                    assert(!bi_ok(sb)) by {
                        if bi_ok(sb) {
                            let rows2 = bi_rows(utf8_decode_all(sb)->0);
                            assert(rows2 == rows);
                            assert(split_on(rows2[0][i as int], seq!['!']).len() >= 2);
                        }
                    }
                }
                return Err(CascError::FileCorrupted(String::from_str("Header format invalid")));
            }
            proof {
                assert(split@[0].deep_view() =~= split@[0]@);
                assert(split@[1].deep_view() =~= split@[1]@);
            }
            let name = chars_to_string(split[0].clone());
            let var_type = chars_to_string(split[1].clone());
            let value = data[i].clone();
            proof {
                assert(data[i as int]@ == rows[1][i as int]);
            }
            new_vars.push(Variable { name, var_type, value });
            i = i + 1;
        }
        proof {
            assert(bi_ok(sb));
        }
        self.variables.append(&mut new_vars);
        proof {
            assert(self.vars_view() =~= vars0.add(bi_columns(sb)));
        }
        Ok(())
    }
}

} // verus!
