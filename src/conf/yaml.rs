//! Flattening of a YAML document into dotted property names:
//! `a: {b: x}` gives `a.b = x`, `l: [x, y]` gives `l[0] = x`, `l[1] = y`.
use vstd::prelude::*;
use vstd::string::*;
use crate::conf::{indexed, indexed_key, pairs_view, PropertyLoader};

verus! {

/// A YAML node as far as configuration reads it.
pub enum YamlValue {
    /// A string scalar.
    Text(String),
    /// A mapping with string keys, in document order.
    Mapping(Vec<(String, YamlValue)>),
    /// A sequence.
    Sequence(Vec<YamlValue>),
    /// Any other scalar (number, boolean, null); its property is empty.
    Other,
}

/// Full name of `key` under `path`: `path.key`, or `path[i]` for a sequence
/// index.
pub open spec fn join(path: Option<Seq<char>>, key: Seq<char>) -> Seq<char> {
    match path {
        None => key,
        Some(p) => if key.len() > 0 && key[0] == '[' {
            p + key
        } else {
            p + seq!['.'] + key
        },
    }
}

/// Settings that the node `v` gives under the full name `key`.
pub open spec fn flatten_value(key: Seq<char>, v: YamlValue) -> Seq<(Seq<char>, Seq<char>)>
    decreases v,
{
    match v {
        YamlValue::Text(s) => seq![(key, s@)],
        YamlValue::Mapping(m) => flatten_entries(m@, Some(key)),
        YamlValue::Sequence(items) => if items@.len() == 0 {
            seq![(key, Seq::<char>::empty())]
        } else {
            flatten_items(items@, key)
        },
        YamlValue::Other => seq![(key, Seq::<char>::empty())],
    }
}

/// Settings of the entries of a mapping under `path`, in order.
pub open spec fn flatten_entries(m: Seq<(String, YamlValue)>, path: Option<Seq<char>>) -> Seq<(Seq<char>, Seq<char>)>
    decreases m,
{
    if m.len() == 0 {
        Seq::empty()
    } else {
        flatten_entries(m.subrange(0, m.len() - 1), path) + flatten_value(
            join(path, m[m.len() - 1].0@),
            m[m.len() - 1].1,
        )
    }
}

/// Settings of the items of a sequence named `key`, in order.
pub open spec fn flatten_items(s: Seq<YamlValue>, key: Seq<char>) -> Seq<(Seq<char>, Seq<char>)>
    decreases s,
{
    if s.len() == 0 {
        Seq::empty()
    } else {
        flatten_items(s.subrange(0, s.len() - 1), key) + flatten_value(
            indexed(key, (s.len() - 1) as nat),
            s[s.len() - 1],
        )
    }
}

fn copy_str(s: &str) -> (r: String)
    ensures
        r@ == s@,
{
    String::from_str(s)
}

fn join_key(path: Option<&String>, key: &String) -> (r: String)
    ensures
        r@ == join(
            match path {
                Some(p) => Some(p@),
                None => None,
            },
            key@,
        ),
{
    match path {
        None => copy_str(key.as_str()),
        Some(p) => {
            let k = key.as_str();
            if k.unicode_len() > 0 && k.get_char(0) == '[' {
                copy_str(p.as_str()).concat(k)
            } else {
                proof {
                    reveal_strlit(".");
                }
                copy_str(p.as_str()).concat(".").concat(k)
            }
        },
    }
}

fn push_setting(result: &mut Vec<(String, String)>, key: String, value: String)
    ensures
        pairs_view(final(result)@) == pairs_view(old(result)@).push((key@, value@)),
{
    let ghost k = key@;
    let ghost v = value@;
    result.push((key, value));
    proof {
        assert(pairs_view(result@) =~= pairs_view(old(result)@).push((k, v)));
    }
}

/// Appends the settings of `v` under the full name `key`.
fn flatten_value_into(result: &mut Vec<(String, String)>, key: &String, v: &YamlValue)
    ensures
        pairs_view(final(result)@) == pairs_view(old(result)@) + flatten_value(key@, *v),
    decreases v,
{
    proof {
        reveal_strlit("");
    }
    match v {
        YamlValue::Text(s) => {
            push_setting(result, copy_str(key.as_str()), copy_str(s.as_str()));
            proof {
                assert(pairs_view(result@) =~= pairs_view(old(result)@) + flatten_value(key@, *v));
            }
        },
        YamlValue::Mapping(m) => {
            flatten_entries_into(result, m, Some(key));
        },
        YamlValue::Sequence(items) => {
            if items.len() == 0 {
                push_setting(result, copy_str(key.as_str()), String::new());
                proof {
                    assert(pairs_view(result@) =~= pairs_view(old(result)@) + flatten_value(key@, *v));
                }
            } else {
                let mut i: usize = 0;
                proof {
                    assert(items@.subrange(0, 0) =~= Seq::<YamlValue>::empty());
                    assert(pairs_view(result@) =~= pairs_view(old(result)@) + flatten_items(items@.subrange(0, 0), key@));
                }
                while i < items.len()
                    invariant
                        0 <= i <= items@.len(),
                        *v is Sequence,
                        v->Sequence_0 == *items,
                        pairs_view(result@) == pairs_view(old(result)@) + flatten_items(items@.subrange(0, i as int), key@),
                    decreases items@.len() - i,
                {
                    let name = indexed_key(key.as_str(), i);
                    let ghost before = pairs_view(result@);
                    proof {
                        assert(*items == v->Sequence_0);
                        assert(decreases_to!(*v => v->Sequence_0));
                        assert(decreases_to!(*items => items@));
                        assert(decreases_to!(items@ => items@[i as int]));
                    }
                    flatten_value_into(result, &name, &items[i]);
                    proof {
                        let s = items@.subrange(0, i + 1);
                        assert(s.subrange(0, s.len() - 1) =~= items@.subrange(0, i as int));
                        assert(s[s.len() - 1] == items@[i as int]);
                        assert(pairs_view(result@) =~= pairs_view(old(result)@) + flatten_items(s, key@));
                    }
                    i = i + 1;
                }
                proof {
                    assert(items@.subrange(0, items@.len() as int) =~= items@);
                }
            }
        },
        YamlValue::Other => {
            push_setting(result, copy_str(key.as_str()), String::new());
            proof {
                assert(pairs_view(result@) =~= pairs_view(old(result)@) + flatten_value(key@, *v));
            }
        },
    }
}

/// Appends the settings of the entries of `m` under `path`.
fn flatten_entries_into(result: &mut Vec<(String, String)>, m: &Vec<(String, YamlValue)>, path: Option<&String>)
    ensures
        pairs_view(final(result)@) == pairs_view(old(result)@) + flatten_entries(
            m@,
            match path {
                Some(p) => Some(p@),
                None => None,
            },
        ),
    decreases m,
{
    let ghost pv = match path {
        Some(p) => Some(p@),
        None => None,
    };
    let mut i: usize = 0;
    proof {
        assert(m@.subrange(0, 0) =~= Seq::<(String, YamlValue)>::empty());
        assert(pairs_view(result@) =~= pairs_view(old(result)@) + flatten_entries(m@.subrange(0, 0), pv));
    }
    while i < m.len()
        invariant
            0 <= i <= m@.len(),
            pv == match path {
                Some(p) => Some(p@),
                None => None,
            },
            pairs_view(result@) == pairs_view(old(result)@) + flatten_entries(m@.subrange(0, i as int), pv),
        decreases m@.len() - i,
    {
        let name = join_key(path, &m[i].0);
        proof {
            assert(decreases_to!(*m => m@[i as int].1));
        }
        flatten_value_into(result, &name, &m[i].1);
        proof {
            let s = m@.subrange(0, i + 1);
            assert(s.subrange(0, s.len() - 1) =~= m@.subrange(0, i as int));
            assert(s[s.len() - 1] == m@[i as int]);
            assert(name@ == join(pv, m@[i as int].0@));
            assert(flatten_entries(s, pv) == flatten_entries(m@.subrange(0, i as int), pv) + flatten_value(name@, m@[i as int].1));
            assert(pairs_view(result@) =~= pairs_view(old(result)@) + flatten_entries(s, pv));
        }
        i = i + 1;
    }
    proof {
        assert(m@.subrange(0, m@.len() as int) =~= m@);
    }
}

/// Reads YAML documents into flattened properties.
pub struct YamlPropertyLoader {}

impl YamlPropertyLoader {
    pub fn new() -> (r: YamlPropertyLoader)
        ensures
            r == (YamlPropertyLoader {  }),
    {
        YamlPropertyLoader {  }
    }

    /// The settings of a document whose top level is a mapping.
    pub fn load(&self, doc: &YamlValue) -> (r: Result<Vec<(String, String)>, String>)
        ensures
            match doc {
                YamlValue::Mapping(m) => r is Ok && pairs_view(r->Ok_0@) == flatten_entries(m@, None),
                _ => r is Err,
            },
    {
        match doc {
            YamlValue::Mapping(m) => {
                let mut result: Vec<(String, String)> = Vec::new();
                proof {
                    assert(pairs_view(result@) =~= Seq::<(Seq<char>, Seq<char>)>::empty());
                }
                flatten_entries_into(&mut result, m, None);
                proof {
                    assert(pairs_view(result@) =~= flatten_entries(m@, None));
                }
                Ok(result)
            },
            _ => Err(copy_str("the top level of a configuration document must be a mapping")),
        }
    }

    /// File extensions of YAML documents.
    pub fn get_file_extensions(&self) -> (r: Vec<String>)
        ensures
            r@.len() == 2,
            r@[0]@ == "yaml"@,
            r@[1]@ == "yml"@,
    {
        proof {
            reveal_strlit("yaml");
            reveal_strlit("yml");
        }
        let mut r: Vec<String> = Vec::new();
        r.push(copy_str("yaml"));
        r.push(copy_str("yml"));
        r
    }
}

impl PropertyLoader for YamlPropertyLoader {
    fn load(&self, doc: &YamlValue) -> Result<Vec<(String, String)>, String> {
        YamlPropertyLoader::load(self, doc)
    }

    fn get_file_extensions(&self) -> Vec<String> {
        YamlPropertyLoader::get_file_extensions(self)
    }
}

} // verus!
