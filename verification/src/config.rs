use vstd::prelude::*;

use crate::bytes::ByteReader;
use crate::chars::{find_char, find_char_vec, split_ws, split_ws_vec, trim, trim_vec, vec_skip, vec_take};
use crate::dsv::{lines_vec, raw_lines};
use crate::error::CascError;
use crate::text::{
    chars_to_string, lemma_decode_prefix_full, strings_of_rows, utf8_decode_all,
};

verus! {

broadcast use vstd::std_specs::vec::group_vec_axioms;

/// What one configuration variable holds.
pub struct ConfigVarV {
    /// The variable's name, left of the first `=`.
    pub name: Seq<char>,
    /// The whitespace-separated values right of it, in order.
    pub values: Seq<Seq<char>>,
}

/// A variable of the build configuration: a name and its values.
#[derive(Debug, Clone, PartialEq, Eq)]
pub struct Variable {
    /// The name of the variable.
    pub name: String,
    /// The values associated with the variable.
    pub values: Vec<String>,
}

impl View for Variable {
    type V = ConfigVarV;

    open spec fn view(&self) -> ConfigVarV {
        ConfigVarV { name: self.name@, values: self.values.deep_view() }
    }
}

impl Variable {
    /// A variable with the given name and values.
    pub fn new(name: String, values: Vec<String>) -> (r: Variable)
        ensures
            r@.name == name@,
            r@.values == values.deep_view(),
    {
        Variable { name, values }
    }
}

/// The variable that one configuration line defines, when it defines one:
/// the line is trimmed, skipped when empty or a `#` comment, and split at
/// its first `=` into a trimmed name and whitespace-separated values.
pub open spec fn cfg_entry_of_line(l: Seq<char>) -> Option<ConfigVarV> {
    let t = trim(l);
    if t.len() == 0 || t[0] == '#' {
        None
    } else {
        let i = find_char(t, '=');
        if i < 0 {
            None
        } else {
            Some(ConfigVarV { name: trim(t.take(i)), values: split_ws(t.skip(i + 1)) })
        }
    }
}

/// The variables the given lines define, in order.
pub open spec fn cfg_entries(ls: Seq<Seq<char>>) -> Seq<ConfigVarV>
    decreases ls.len(),
{
    if ls.len() == 0 {
        Seq::<ConfigVarV>::empty()
    } else {
        let rest = cfg_entries(ls.skip(1));
        match cfg_entry_of_line(ls[0]) {
            None => rest,
            Some(v) => seq![v].add(rest),
        }
    }
}

/// The views of a run of variables, in order.
pub open spec fn cfg_views(vars: Seq<Variable>) -> Seq<ConfigVarV> {
    Seq::new(vars.len(), |i: int| vars[i]@)
}

/// The variable that a later line most recently set under this name.
pub open spec fn cfg_lookup(vars: Seq<ConfigVarV>, name: Seq<char>) -> Option<ConfigVarV>
    decreases vars.len(),
{
    if vars.len() == 0 {
        None
    } else if vars.last().name == name {
        Some(vars.last())
    } else {
        cfg_lookup(vars.drop_last(), name)
    }
}

/// The build configuration: `KEY = VALUE [VALUE ...]` lines with `#`
/// comments, looked up by key.
#[derive(Debug)]
pub struct CascConfig {
    /// The variables, in the order their lines set them.
    pub variables: Vec<Variable>,
}

impl CascConfig {
    /// The views of the stored variables, in order.
    pub open spec fn vars_view(&self) -> Seq<ConfigVarV> {
        cfg_views(self.variables@)
    }

    /// An empty configuration.
    pub fn new() -> (r: CascConfig)
        ensures
            r.vars_view() =~= Seq::<ConfigVarV>::empty(),
    {
        CascConfig { variables: Vec::new() }
    }

    /// The variable with the given name, when some line set it.
    pub fn get(&self, var_name: &str) -> (r: Option<&Variable>)
        ensures
            match cfg_lookup(self.vars_view(), var_name@) {
                Some(v) => r matches Some(x) && x@ == v,
                None => r is None,
            },
    {
        let key = String::from_str(var_name);
        let mut i: usize = self.variables.len();
        proof {
            assert(self.vars_view().take(i as int) =~= self.vars_view());
        }
        while i > 0
            invariant
                i <= self.variables@.len(),
                cfg_lookup(self.vars_view(), var_name@) == cfg_lookup(
                    self.vars_view().take(i as int),
                    var_name@,
                ),
                key@ == var_name@,
            decreases i,
        {
            i = i - 1;
            proof {
                assert(self.vars_view().take(i + 1).drop_last() =~= self.vars_view().take(
                    i as int,
                ));
                assert(self.vars_view().take(i + 1).last() == self.vars_view()[i as int]);
            }
            if self.variables[i].name == key {
                return Some(&self.variables[i]);
            }
        }
        proof {
            assert(self.vars_view().take(0) =~= Seq::<ConfigVarV>::empty());
        }
        None
    }

    /// Parses a configuration text and appends the variables it defines;
    /// text that is not UTF-8 appends nothing and reports why.
    pub fn load(&mut self, content: Vec<u8>) -> (r: Result<(), CascError>)
        ensures
            r is Ok <==> utf8_decode_all(content@) is Some,
            r is Ok ==> final(self).vars_view() == old(self).vars_view().add(
                cfg_entries(raw_lines(utf8_decode_all(content@)->0)),
            ),
            r is Err ==> final(self).vars_view() == old(self).vars_view(),
    {
        let ghost content_v = content@;
        let len = content.len();
        let mut reader = ByteReader::new(content);
        proof {
            assert(content_v.skip(0) =~= content_v);
        }
        let chars = match reader.read_chars(len) {
            Ok(v) => v,
            Err(_) => {
                return Err(CascError::InvalidData(String::from_str("text is not valid UTF-8")));
            },
        };
        proof {
            lemma_decode_prefix_full(content_v, len as nat);
        }
        let ghost text = utf8_decode_all(content_v)->0;
        assert(chars@ == text);
        let lines = lines_vec(&chars);
        let ghost lines_v = raw_lines(text);
        assert(lines.deep_view() == lines_v);

        let mut new_vars: Vec<Variable> = Vec::new();
        let mut i: usize = 0;
        proof {
            assert(lines_v.skip(0) =~= lines_v);
            assert(cfg_views(new_vars@) =~= Seq::<ConfigVarV>::empty());
            assert(Seq::<ConfigVarV>::empty().add(cfg_entries(lines_v)) =~= cfg_entries(lines_v));
        }
        while i < lines.len()
            invariant
                i <= lines@.len(),
                lines.deep_view() == lines_v,
                cfg_entries(lines_v) == cfg_views(new_vars@).add(
                    cfg_entries(lines_v.skip(i as int)),
                ),
            decreases lines@.len() - i,
        {
            proof {
                assert(lines_v.skip(i as int).skip(1) =~= lines_v.skip(i + 1));
            }
            let line = lines[i].clone();
            proof {
                assert(line.deep_view() =~= line@);
                assert(line@ =~= lines_v[i as int]);
            }
            let t = trim_vec(&line);
            let skip_line = if t.len() == 0 {
                true
            } else if t[0] == '#' {
                true
            } else {
                false
            };
            if !skip_line {
                match find_char_vec(&t, '=') {
                    None => {
                        assert(cfg_entry_of_line(lines_v[i as int]) is None);
                    },
                    Some(ix) => {
                        let name_chars = trim_vec(&vec_take(&t, ix));
                        let value_part = vec_skip(&t, ix + 1);
                        let value_rows = split_ws_vec(&value_part);
                        let values = strings_of_rows(&value_rows);
                        let name = chars_to_string(name_chars);
                        let ghost before = cfg_views(new_vars@);
                        let ghost entry = cfg_entry_of_line(lines_v[i as int])->0;
                        new_vars.push(Variable { name, values });
                        proof {
                            assert(cfg_views(new_vars@) =~= before.push(entry));
                            assert(before.push(entry).add(cfg_entries(lines_v.skip(i + 1)))
                                =~= before.add(
                                seq![entry].add(cfg_entries(lines_v.skip(i + 1))),
                            ));
                        }
                    },
                }
            } else {
                assert(cfg_entry_of_line(lines_v[i as int]) is None);
            }
            i = i + 1;
        }
        proof {
            assert(lines_v.skip(i as int) =~= Seq::<Seq<char>>::empty());
            assert(cfg_views(new_vars@).add(cfg_entries(Seq::<Seq<char>>::empty()))
                =~= cfg_views(new_vars@));
        }
        let ghost vars0 = old(self).vars_view();
        let ghost added = cfg_views(new_vars@);
        self.variables.append(&mut new_vars);
        proof {
            assert(self.vars_view() =~= vars0.add(added));
        }
        Ok(())
    }
}

} // verus!
