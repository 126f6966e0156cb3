//! Process configuration: a property table filled from configuration
//! documents and command-line overrides, with `${name}` placeholders.
use vstd::prelude::*;
use vstd::string::*;
use crate::conf::yaml::{flatten_entries, YamlPropertyLoader, YamlValue};

pub mod yaml;

verus! {

/// Character of a decimal digit.
pub open spec fn digit_char(d: nat) -> char {
    if d == 0 { '0' }
    else if d == 1 { '1' }
    else if d == 2 { '2' }
    else if d == 3 { '3' }
    else if d == 4 { '4' }
    else if d == 5 { '5' }
    else if d == 6 { '6' }
    else if d == 7 { '7' }
    else if d == 8 { '8' }
    else { '9' }
}

/// Decimal digits of `n`, most significant first, without leading zeros.
pub open spec fn decimal(n: nat) -> Seq<char>
    decreases n,
{
    if n < 10 {
        seq![digit_char(n)]
    } else {
        decimal(n / 10).push(digit_char(n % 10))
    }
}

/// Key of the element at `i` of the list property `key`: `key[i]`.
pub open spec fn indexed(key: Seq<char>, i: nat) -> Seq<char> {
    key + seq!['['] + decimal(i) + seq![']']
}

/// `${name}` stands for `name`; any other text stands for itself.
pub open spec fn prepared(name: Seq<char>) -> Seq<char> {
    if name.len() >= 3 && name[0] == '$' && name[1] == '{' && name[name.len() - 1] == '}' {
        name.subrange(2, name.len() - 1)
    } else {
        name
    }
}

/// Value of `key` in a list of settings where a later setting overrides an
/// earlier one.
pub open spec fn lookup(e: Seq<(Seq<char>, Seq<char>)>, key: Seq<char>) -> Option<Seq<char>>
    decreases e.len(),
{
    if e.len() == 0 {
        None
    } else if e.last().0 == key {
        Some(e.last().1)
    } else {
        lookup(e.drop_last(), key)
    }
}

pub open spec fn opt_view(o: Option<String>) -> Option<Seq<char>> {
    match o {
        Some(s) => Some(s@),
        None => None,
    }
}

pub open spec fn pair_view(p: (String, String)) -> (Seq<char>, Seq<char>) {
    (p.0@, p.1@)
}

pub open spec fn pairs_view(v: Seq<(String, String)>) -> Seq<(Seq<char>, Seq<char>)> {
    v.map_values(|p: (String, String)| pair_view(p))
}

/// Relies on `format!`: writes `key`, `[`, the decimal digits of `i` and `]`.
#[verifier::external_body]
pub(crate) fn indexed_key(key: &str, i: usize) -> (r: String)
    ensures
        r@ == indexed(key@, i as nat),
{
    format!("{key}[{i}]")
}

/// The configuration of the process: which document kinds can be read, and
/// the properties read so far.
pub struct Environment {
    property_loaders: Vec<String>,
    properties: Vec<(String, String)>,
}

impl Environment {
    /// Settings in the order they were made; a later one overrides.
    pub closed spec fn settings(&self) -> Seq<(Seq<char>, Seq<char>)> {
        pairs_view(self.properties@)
    }

    /// File extensions that a registered loader reads.
    pub closed spec fn extensions(&self) -> Seq<Seq<char>> {
        self.property_loaders@.map_values(|s: String| s@)
    }

    /// The value of property `key`.
    pub open spec fn property(&self, key: Seq<char>) -> Option<Seq<char>> {
        lookup(self.settings(), key)
    }

    /// An environment with no properties that reads YAML documents.
    pub fn new() -> (r: Environment)
        ensures
            r.settings().len() == 0,
            r.extensions() == seq!["yaml"@, "yml"@],
    {
        let mut r = Environment { property_loaders: Vec::new(), properties: Vec::new() };
        proof {
            assert(r.settings() =~= Seq::<(Seq<char>, Seq<char>)>::empty());
            assert(r.extensions() =~= Seq::<Seq<char>>::empty());
        }
        let loader = YamlPropertyLoader::new();
        let exts = loader.get_file_extensions();
        r.register_extensions(exts);
        proof {
            assert(exts@.map_values(|s: String| s@) =~= seq!["yaml"@, "yml"@]);
            assert(r.extensions() =~= seq!["yaml"@, "yml"@]);
        }
        r
    }

    /// Registers the file extensions that `loader` reads.
    pub fn register_property_loader<L: PropertyLoader>(&mut self, loader: &L)
        ensures
            final(self).settings() == old(self).settings(),
            final(self).extensions().len() >= old(self).extensions().len(),
            final(self).extensions().subrange(0, old(self).extensions().len() as int) == old(self).extensions(),
    {
        let exts = loader.get_file_extensions();
        self.register_extensions(exts);
        proof {
            assert((old(self).extensions() + exts@.map_values(|s: String| s@)).subrange(0, old(self).extensions().len() as int)
                =~= old(self).extensions());
        }
    }

    /// What reading `doc` into `old` does: when YAML is registered, a mapping
    /// adds its flattened settings and anything else is an error; otherwise
    /// nothing happens.
    pub open spec fn read_post(old: Environment, new: Environment, doc: YamlValue, r: Result<(), String>) -> bool {
        &&& new.extensions() == old.extensions()
        &&& !old.extensions().contains("yaml"@) ==> r is Ok && new.settings() == old.settings()
        &&& old.extensions().contains("yaml"@) ==> match doc {
            YamlValue::Mapping(m) => r is Ok && new.settings() == old.settings() + flatten_entries(m@, None),
            _ => r is Err && new.settings() == old.settings(),
        }
    }

    /// Reads the properties of a YAML document, when YAML is registered.
    pub fn read_yaml(&mut self, doc: &YamlValue) -> (r: Result<(), String>)
        ensures
            Self::read_post(*old(self), *final(self), *doc, r),
    {
        proof {
            reveal_strlit("yaml");
        }
        if self.has_loader("yaml") {
            let loader = YamlPropertyLoader::new();
            let props = match loader.load(doc) {
                Ok(p) => p,
                Err(e) => {
                    return Err(e);
                },
            };
            let mut i: usize = 0;
            while i < props.len()
                invariant
                    0 <= i <= props@.len(),
                    self.extensions() == old(self).extensions(),
                    self.settings() == old(self).settings() + pairs_view(props@).take(i as int),
                decreases props@.len() - i,
            {
                let k = String::from_str(props[i].0.as_str());
                let v = String::from_str(props[i].1.as_str());
                self.set_property(k, v);
                proof {
                    assert(pairs_view(props@).take(i + 1) =~= pairs_view(props@).take(i as int).push(pair_view(props@[i as int])));
                    assert(self.settings() =~= old(self).settings() + pairs_view(props@).take(i + 1));
                }
                i = i + 1;
            }
            proof {
                assert(pairs_view(props@).take(props@.len() as int) =~= pairs_view(props@));
            }
        } else {
            proof {
                assert(self.settings() == old(self).settings());
            }
        }
        Ok(())
    }

    /// Applies each command-line argument of the form `--name=value` as a
    /// property.
    pub fn parse_command_args(&mut self, args: &Vec<String>)
        ensures
            final(self).extensions() == old(self).extensions(),
            final(self).settings() == old(self).settings() + args_settings(args@.map_values(|a: String| a@)),
    {
        let ghost av = args@.map_values(|a: String| a@);
        let mut i: usize = 0;
        proof {
            assert(av.take(0) =~= Seq::<Seq<char>>::empty());
            assert(self.settings() =~= old(self).settings() + args_settings(av.take(0)));
        }
        while i < args.len()
            invariant
                0 <= i <= args@.len(),
                av == args@.map_values(|a: String| a@),
                self.extensions() == old(self).extensions(),
                self.settings() == old(self).settings() + args_settings(av.take(i as int)),
            decreases args@.len() - i,
        {
            let a = args[i].as_str();
            proof {
                assert(av.take(i + 1).drop_last() =~= av.take(i as int));
                assert(av.take(i + 1).last() == a@);
            }
            match command_arg(a) {
                Some((k, v)) => {
                    self.set_property(k, v);
                    proof {
                        assert(self.settings() =~= old(self).settings() + args_settings(av.take(i + 1)));
                    }
                },
                None => {},
            }
            i = i + 1;
        }
        proof {
            assert(av.take(args@.len() as int) =~= av);
        }
    }

    /// Registers each of `extensions` as readable.
    pub fn register_extensions(&mut self, extensions: Vec<String>)
        ensures
            final(self).extensions() == old(self).extensions() + extensions@.map_values(|s: String| s@),
            final(self).settings() == old(self).settings(),
    {
        let mut i: usize = 0;
        while i < extensions.len()
            invariant
                0 <= i <= extensions@.len(),
                self.extensions() == old(self).extensions() + extensions@.take(i as int).map_values(|s: String| s@),
                self.settings() == old(self).settings(),
            decreases extensions@.len() - i,
        {
            let ghost before = self.extensions();
            self.property_loaders.push(extensions[i].clone());
            proof {
                assert(extensions@.take(i + 1) =~= extensions@.take(i as int).push(extensions@[i as int]));
                assert(self.extensions() =~= before.push(extensions@[i as int]@));
                assert(self.extensions() =~= old(self).extensions() + extensions@.take(i + 1).map_values(|s: String| s@));
            }
            i = i + 1;
        }
        proof {
            assert(extensions@.take(extensions@.len() as int) =~= extensions@);
        }
    }

    /// Whether a loader for `extension` is registered.
    pub fn has_loader(&self, extension: &str) -> (r: bool)
        ensures
            r == self.extensions().contains(extension@),
    {
        let mut i: usize = 0;
        while i < self.property_loaders.len()
            invariant
                0 <= i <= self.extensions().len(),
                self.extensions().len() == self.property_loaders@.len(),
                forall|k: int| 0 <= k < i ==> self.extensions()[k] != extension@,
            decreases self.property_loaders@.len() - i,
        {
            if self.property_loaders[i].as_str().unicode_len() == extension.unicode_len() && str_eq(
                self.property_loaders[i].as_str(),
                extension,
            ) {
                proof {
                    assert(self.extensions()[i as int] == self.property_loaders@[i as int]@);
                }
                return true;
            }
            proof {
                assert(self.extensions()[i as int] == self.property_loaders@[i as int]@);
            }
            i = i + 1;
        }
        false
    }

    /// Sets property `key` to `value`, overriding an earlier value.
    pub fn set_property(&mut self, key: String, value: String)
        ensures
            final(self).settings() == old(self).settings().push((key@, value@)),
            final(self).extensions() == old(self).extensions(),
    {
        let ghost k = key@;
        let ghost v = value@;
        self.properties.push((key, value));
        proof {
            assert(self.settings() =~= old(self).settings().push((k, v)));
        }
    }

    /// The name that `name` stands for: `${x}` stands for `x`.
    pub fn prepare_key(&self, name: &str) -> (r: String)
        ensures
            r@ == prepared(name@),
    {
        let n = name.unicode_len();
        if n >= 3 && name.get_char(0) == '$' && name.get_char(1) == '{' && name.get_char(n - 1) == '}' {
            String::from_str(name.substring_char(2, n - 1))
        } else {
            String::from_str(name)
        }
    }

    /// Value of the property that `key` names.
    pub fn get_property(&self, key: &str) -> (r: Option<String>)
        ensures
            opt_view(r) == self.property(prepared(key@)),
    {
        let name = self.prepare_key(key);
        let mut i: usize = self.properties.len();
        proof {
            assert(self.settings().take(i as int) =~= self.settings());
        }
        while i > 0
            invariant
                0 <= i <= self.properties@.len(),
                name@ == prepared(key@),
                self.property(name@) == lookup(self.settings().take(i as int), name@),
            decreases i,
        {
            let ghost e = self.settings();
            proof {
                assert(e.take(i as int).drop_last() =~= e.take(i - 1));
                assert(e.take(i as int).last() == pair_view(self.properties@[i - 1]));
            }
            i = i - 1;
            if string_eq(&self.properties[i].0, &name) {
                proof {
                    assert(e.take(i + 1).last().0 == name@);
                    assert(lookup(e.take(i + 1), name@) == Some(self.properties@[i as int].1@));
                }
                let v = String::from_str(self.properties[i].1.as_str());
                return Some(v);
            }
        }
        proof {
            assert(self.settings().take(0) =~= Seq::<(Seq<char>, Seq<char>)>::empty());
        }
        None
    }

    /// Value of the property that `text` names, or `text` itself.
    pub fn resolve_placeholders(&self, text: &str) -> (r: String)
        ensures
            r@ == match self.property(prepared(text@)) {
                Some(v) => v,
                None => text@,
            },
    {
        match self.get_property(text) {
            Some(v) => v,
            None => String::from_str(text),
        }
    }

    /// Elements of the list property that `text` names: the values of
    /// `name[0]`, `name[1]`, ... up to the first index with no value.
    pub fn get_properties(&self, text: &str) -> (r: Vec<String>)
        ensures
            forall|k: int| 0 <= k < r@.len() ==> self.property(indexed(prepared(text@), k as nat)) == Some(
                (#[trigger] r@[k])@,
            ),
            self.property(indexed(prepared(text@), r@.len() as nat)) is None || r@.len() == self.settings().len(),
    {
        let key = self.prepare_key(text);
        let mut result: Vec<String> = Vec::new();
        let mut i: usize = 0;
        while i < self.properties.len()
            invariant
                result@.len() == i,
                i <= self.properties@.len(),
                key@ == prepared(text@),
                forall|k: int| 0 <= k < i ==> self.property(indexed(key@, k as nat)) == Some((#[trigger] result@[k])@),
            decreases self.properties@.len() - i,
        {
            let name = indexed_key(key.as_str(), i);
            proof {
                let d = decimal(i as nat);
                assert(d.len() > 0);
                assert(name@[name@.len() - 1] == ']');
                assert(prepared(name@) == name@);
            }
            match self.get_property(name.as_str()) {
                Some(v) => {
                    result.push(v);
                },
                None => {
                    return result;
                },
            }
            i = i + 1;
        }
        result
    }
}

/// Loads properties from a kind of configuration document.
pub trait PropertyLoader {
    /// The settings of `doc`, in order.
    fn load(&self, doc: &YamlValue) -> Result<Vec<(String, String)>, String>;

    /// File extensions of the documents this loader reads.
    fn get_file_extensions(&self) -> Vec<String>;
}

/// Index of the first `c` in `s` at or after `from`, or `s.len()`.
pub open spec fn find_char(s: Seq<char>, c: char, from: int) -> int
    decreases s.len() - from,
{
    if from >= s.len() {
        s.len() as int
    } else if s[from] == c {
        from
    } else {
        find_char(s, c, from + 1)
    }
}

/// The setting that a command-line argument `--name=value` makes: the name
/// runs to the first `=`, the value to the next `=` or the end.
pub open spec fn arg_setting(a: Seq<char>) -> Option<(Seq<char>, Seq<char>)> {
    let p = find_char(a, '=', 0);
    if a.len() >= 2 && a[0] == '-' && a[1] == '-' && p < a.len() {
        Some((a.subrange(2, p), a.subrange(p + 1, find_char(a, '=', p + 1))))
    } else {
        None
    }
}

/// Settings that a list of command-line arguments makes, in order.
pub open spec fn args_settings(args: Seq<Seq<char>>) -> Seq<(Seq<char>, Seq<char>)>
    decreases args.len(),
{
    if args.len() == 0 {
        Seq::empty()
    } else {
        let rest = args_settings(args.drop_last());
        match arg_setting(args.last()) {
            Some(kv) => rest.push(kv),
            None => rest,
        }
    }
}

pub proof fn lemma_find_char_bounds(s: Seq<char>, c: char, from: int)
    requires
        0 <= from <= s.len(),
    ensures
        from <= find_char(s, c, from) <= s.len(),
    decreases s.len() - from,
{
    if from < s.len() && s[from] != c {
        lemma_find_char_bounds(s, c, from + 1);
    }
}

/// First `c` in `s` at or after `from`.
fn find_char_exec(s: &str, c: char, from: usize) -> (r: usize)
    requires
        from <= s@.len(),
    ensures
        r as int == find_char(s@, c, from as int),
{
    let n = s.unicode_len();
    let mut i: usize = from;
    while i < n && s.get_char(i) != c
        invariant
            n == s@.len(),
            from <= i <= n,
            find_char(s@, c, from as int) == find_char(s@, c, i as int),
        decreases n - i,
    {
        i = i + 1;
    }
    i
}

/// The setting that one command-line argument makes, if any.
pub fn command_arg(a: &str) -> (r: Option<(String, String)>)
    ensures
        match r {
            Some((k, v)) => arg_setting(a@) == Some((k@, v@)),
            None => arg_setting(a@) is None,
        },
{
    let n = a.unicode_len();
    let p = find_char_exec(a, '=', 0);
    if n >= 2 && a.get_char(0) == '-' && a.get_char(1) == '-' && p < n {
        proof {
            assert(find_char(a@, '=', 0) == find_char(a@, '=', 1));
            assert(find_char(a@, '=', 1) == find_char(a@, '=', 2));
            lemma_find_char_bounds(a@, '=', 2);
            lemma_find_char_bounds(a@, '=', p + 1);
        }
        let q = find_char_exec(a, '=', p + 1);
        let k = String::from_str(a.substring_char(2, p));
        let v = String::from_str(a.substring_char(p + 1, q));
        Some((k, v))
    } else {
        None
    }
}

/// Whether two strings hold the same characters.
pub(crate) fn string_eq(a: &String, b: &String) -> (r: bool)
    ensures
        r == (a@ == b@),
{
    let x = a.as_str();
    let y = b.as_str();
    x.unicode_len() == y.unicode_len() && str_eq(x, y)
}

/// Whether two string slices of equal length hold the same characters.
fn str_eq(a: &str, b: &str) -> (r: bool)
    requires
        a@.len() == b@.len(),
    ensures
        r == (a@ == b@),
{
    let n = a.unicode_len();
    let mut i: usize = 0;
    while i < n
        invariant
            n == a@.len(),
            a@.len() == b@.len(),
            0 <= i <= n,
            forall|k: int| 0 <= k < i ==> a@[k] == b@[k],
        decreases n - i,
    {
        if a.get_char(i) != b.get_char(i) {
            return false;
        }
        i = i + 1;
    }
    proof {
        assert(a@ =~= b@);
    }
    true
}

} // verus!
