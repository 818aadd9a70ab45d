//! The data model: supported HTTP methods, the assembled request, and the
//! variable environment that document parsing reads and extends.

use crate::error::HttpieError;
use crate::json::{JsonValue, json_parses, json_value_of, obj_lookup, obj_get};
use crate::strmap::StringMap;
use vstd::prelude::*;

verus! {

/// The request methods a document may name.
#[derive(Clone, Copy, Debug, PartialEq, Eq, Structural)]
pub enum Method {
    Get,
    Post,
    Put,
    Delete,
    Patch,
    Head,
    Options,
    Graphql,
}

/// The token that names a method on a request line.
pub open spec fn method_name(m: Method) -> Seq<char> {
    match m {
        Method::Get => "GET"@,
        Method::Post => "POST"@,
        Method::Put => "PUT"@,
        Method::Delete => "DELETE"@,
        Method::Patch => "PATCH"@,
        Method::Head => "HEAD"@,
        Method::Options => "OPTIONS"@,
        Method::Graphql => "GRAPHQL"@,
    }
}

/// The method a token names, if any; matching is exact and case-sensitive.
pub open spec fn method_of(s: Seq<char>) -> Option<Method> {
    if s == "GET"@ {
        Some(Method::Get)
    } else if s == "POST"@ {
        Some(Method::Post)
    } else if s == "PUT"@ {
        Some(Method::Put)
    } else if s == "DELETE"@ {
        Some(Method::Delete)
    } else if s == "PATCH"@ {
        Some(Method::Patch)
    } else if s == "HEAD"@ {
        Some(Method::Head)
    } else if s == "OPTIONS"@ {
        Some(Method::Options)
    } else if s == "GRAPHQL"@ {
        Some(Method::Graphql)
    } else {
        None
    }
}

impl Method {
    /// The method's request-line token.
    pub fn as_str(&self) -> (r: &'static str)
        ensures
            r@ == method_name(*self),
    {
        match self {
            Method::Get => "GET",
            Method::Post => "POST",
            Method::Put => "PUT",
            Method::Delete => "DELETE",
            Method::Patch => "PATCH",
            Method::Head => "HEAD",
            Method::Options => "OPTIONS",
            Method::Graphql => "GRAPHQL",
        }
    }

    /// Parse a token; `None` when it is not a supported method name.
    pub fn from_token(token: &Vec<char>) -> (r: Option<Method>)
        ensures
            r == method_of(token@),
    {
        let names: [&'static str; 8] = [
            "GET",
            "POST",
            "PUT",
            "DELETE",
            "PATCH",
            "HEAD",
            "OPTIONS",
            "GRAPHQL",
        ];
        let methods: [Method; 8] = [
            Method::Get,
            Method::Post,
            Method::Put,
            Method::Delete,
            Method::Patch,
            Method::Head,
            Method::Options,
            Method::Graphql,
        ];
        let mut i: usize = 0;
        while i < 8
            invariant
                i <= 8,
                names@.len() == 8,
                methods@.len() == 8,
                forall|j: int| 0 <= j < 8 ==> names@[j]@ == method_name(methods@[j]),
                forall|j: int| 0 <= j < i ==> token@ != names@[j]@,
                names@[0]@ == "GET"@ && names@[1]@ == "POST"@ && names@[2]@ == "PUT"@
                    && names@[3]@ == "DELETE"@ && names@[4]@ == "PATCH"@ && names@[5]@
                    == "HEAD"@ && names@[6]@ == "OPTIONS"@ && names@[7]@ == "GRAPHQL"@,
                methods@[0] == Method::Get && methods@[1] == Method::Post && methods@[2]
                    == Method::Put && methods@[3] == Method::Delete && methods@[4]
                    == Method::Patch && methods@[5] == Method::Head && methods@[6]
                    == Method::Options && methods@[7] == Method::Graphql,
            decreases 8 - i,
        {
            let pat = crate::text::chars_of(names[i]);
            if crate::text::eq_chars(token, &pat) {
                return Some(methods[i]);
            }
            i = i + 1;
        }
        None
    }
}

/// One fully assembled request of a document.
#[derive(Debug, Clone)]
pub struct HttpRequest {
    pub name: String,
    pub method: Method,
    pub url: String,
    pub headers: StringMap,
    pub body: Option<String>,
    pub response_handler: Option<String>,
}

impl HttpRequest {
    pub fn new(name: String, method: Method, url: String) -> (r: Self)
        ensures
            r.name@ == name@,
            r.method == method,
            r.url@ == url@,
            r.headers@ == Map::<Seq<char>, Seq<char>>::empty(),
            r.headers.entries() == Seq::<(Seq<char>, Seq<char>)>::empty(),
            r.body is None,
            r.response_handler is None,
    {
        HttpRequest {
            name,
            method,
            url,
            headers: StringMap::new(),
            body: None,
            response_handler: None,
        }
    }

    pub fn with_headers(self, headers: StringMap) -> (r: Self)
        ensures
            r == (HttpRequest { headers, ..self }),
    {
        HttpRequest { headers, ..self }
    }

    pub fn with_body(self, body: Option<String>) -> (r: Self)
        ensures
            r == (HttpRequest { body, ..self }),
    {
        HttpRequest { body, ..self }
    }

    pub fn with_response_handler(self, response_handler: Option<String>) -> (r: Self)
        ensures
            r == (HttpRequest { response_handler, ..self }),
    {
        HttpRequest { response_handler, ..self }
    }
}

/// The variable environment: bindings read from an environment file and
/// extended by in-document `@name = value` declarations.
#[derive(Debug)]
pub struct Environment {
    variables: StringMap,
}

impl Environment {
    pub closed spec fn view(&self) -> Map<Seq<char>, Seq<char>> {
        self.variables@
    }

    pub closed spec fn entries(&self) -> Seq<(Seq<char>, Seq<char>)> {
        self.variables.entries()
    }

    pub fn new() -> (r: Self)
        ensures
            r@ == Map::<Seq<char>, Seq<char>>::empty(),
    {
        Environment { variables: StringMap::new() }
    }

    /// The binding of `key`, if any.
    pub fn get(&self, key: &str) -> (r: Option<&String>)
        ensures
            self@.contains_key(key@) ==> r is Some && r->Some_0@ == self@[key@],
            !self@.contains_key(key@) ==> r is None,
    {
        self.variables.get(key)
    }

    /// Bind `key` to `value`, overriding an existing binding.
    pub fn insert(&mut self, key: String, value: String)
        ensures
            final(self)@ == old(self)@.insert(key@, value@),
    {
        self.variables.insert(key, value);
    }

    /// Merge a set of bindings in; the new bindings win on shared keys.
    pub fn extend(&mut self, other: StringMap)
        ensures
            final(self)@ == old(self)@.union_prefer_right(other@),
    {
        self.variables.extend(other);
    }

    /// All bindings.
    pub fn variables(&self) -> (r: &StringMap)
        ensures
            r@ == self@,
            r.entries() == self.entries(),
    {
        &self.variables
    }
}

/// Every member value is a string.
pub open spec fn all_string_values(ps: Seq<(String, JsonValue)>) -> bool {
    forall|i: int| 0 <= i < ps.len() ==> (#[trigger] ps[i].1) is Text
}

/// The bindings of an object of string members, a later member overriding an
/// earlier one with the same key.
pub open spec fn env_map_of(ps: Seq<(String, JsonValue)>) -> Map<Seq<char>, Seq<char>>
    decreases ps.len(),
{
    if ps.len() == 0 {
        Map::empty()
    } else {
        let m = env_map_of(ps.drop_last());
        match ps.last().1 {
            JsonValue::Text(s) => m.insert(ps.last().0@, s@),
            _ => m,
        }
    }
}

/// What an environment file's parsed value denotes: the active environment's
/// bindings; a missing active environment is the empty map; anything that is
/// not an object of objects of strings is malformed.
pub open spec fn env_selection(v: JsonValue, name: Seq<char>) -> Option<
    Map<Seq<char>, Seq<char>>,
> {
    match v {
        JsonValue::Object(ps) => match obj_lookup(ps@, name) {
            Option::None => Some(Map::empty()),
            Option::Some(sub) => match sub {
                JsonValue::Object(sps) => if all_string_values(sps@) {
                    Some(env_map_of(sps@))
                } else {
                    None
                },
                _ => None,
            },
        },
        _ => None,
    }
}

impl Environment {
    /// The environment a parsed environment file denotes, under the active
    /// environment name: its bindings when well-formed, empty when the name
    /// is absent, and a `Json` error on any other shape.
    pub fn from_json_value(v: &JsonValue) -> (r: Result<Environment, HttpieError>)
        ensures
            match env_selection(*v, crate::DEFAULT_ENVIRONMENT@) {
                Some(m) => r is Ok && r->Ok_0@ == m,
                None => r is Err && r->Err_0 is Json,
            },
    {
        match v {
            JsonValue::Object(ps) => match obj_get(ps, crate::DEFAULT_ENVIRONMENT) {
                None => Ok(Environment::new()),
                Some(JsonValue::Object(sps)) => {
                    let mut vars = StringMap::new();
                    let mut i: usize = 0;
                    proof {
                        assert(sps@.take(0) =~= Seq::<(String, JsonValue)>::empty());
                    }
                    while i < sps.len()
                        invariant
                            i <= sps@.len(),
                            *v == JsonValue::Object(*ps),
                            ({
                                let sel = obj_lookup(ps@, crate::DEFAULT_ENVIRONMENT@);
                                sel is Some && sel->0 is Object && sel->0->Object_0@ == sps@
                            }),
                            forall|j: int| 0 <= j < i ==> (#[trigger] sps@[j].1) is Text,
                            vars@ == env_map_of(sps@.take(i as int)),
                        decreases sps@.len() - i,
                    {
                        proof {
                            assert(sps@.take(i + 1).drop_last() =~= sps@.take(i as int));
                            assert(sps@.take(i + 1).last() == sps@[i as int]);
                        }
                        match &sps[i].1 {
                            JsonValue::Text(val) => {
                                vars.insert(sps[i].0.clone(), val.clone());
                            },
                            _ => {
                                proof {
                                    assert(!all_string_values(sps@)) by {
                                        assert(!(sps@[i as int].1 is Text));
                                    }
                                }
                                return Err(
                                    HttpieError::Json(
                                        "environment values must be strings".to_owned(),
                                    ),
                                );
                            },
                        }
                        i = i + 1;
                    }
                    proof {
                        assert(sps@.take(sps@.len() as int) =~= sps@);
                    }
                    Ok(Environment { variables: vars })
                },
                Some(_) => Err(
                    HttpieError::Json("the active environment must be an object".to_owned()),
                ),
            },
            _ => Err(
                HttpieError::Json("an environment file must hold a JSON object".to_owned()),
            ),
        }
    }

    /// Parse an environment file's text and select the active environment:
    /// a malformed file is a hard `Json` error, a well-formed one denotes the
    /// active environment's bindings.
    pub fn from_json_text(content: &str) -> (r: Result<Environment, HttpieError>)
        ensures
            r is Err ==> r->Err_0 is Json,
            !json_parses(content@) ==> r is Err,
            json_parses(content@) ==> match env_selection(
                json_value_of(content@),
                crate::DEFAULT_ENVIRONMENT@,
            ) {
                Some(m) => r is Ok && r->Ok_0@ == m,
                None => r is Err,
            },
    {
        match crate::json::parse_json_text(content) {
            Ok(v) => Environment::from_json_value(&v),
            Err(e) => Err(HttpieError::Json(e)),
        }
    }
}

impl Clone for Environment {
    /// A copy with the same bindings.
    fn clone(&self) -> (r: Self)
        ensures
            r@ == self@,
    {
        Environment { variables: self.variables.clone() }
    }
}

impl Default for Environment {
    /// The empty environment.
    fn default() -> (r: Self)
        ensures
            r@ == Map::<Seq<char>, Seq<char>>::empty(),
    {
        Environment::new()
    }
}

} // verus!
