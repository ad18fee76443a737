use vstd::prelude::*;
use vstd::string::StringExecFns;
use crate::text::{to_upper, upper_of};

verus! {

/// The request methods this server understands.
#[derive(Debug, Clone, Copy, PartialEq, Eq, Hash, Structural)]
pub enum Method {
    Get,
    Post,
}

/// The token that failed to parse as a method, in upper case.
#[derive(Debug, Clone)]
pub struct MethodParseError(pub String);

impl MethodParseError {
    /// A description of the error.
    pub fn message(&self) -> (r: String)
        ensures
            r@ == "Cannot parse "@ + self.0@ + " as POST method"@,
    {
        let mut r = "Cannot parse ".to_owned();
        r.append(self.0.as_str());
        r.append(" as POST method");
        r
    }
}

/// The canonical name of a method.
pub open spec fn method_name(m: Method) -> Seq<char> {
    match m {
        Method::Get => "GET"@,
        Method::Post => "POST"@,
    }
}

/// The method named by an upper-cased token, if any.
pub open spec fn method_of_upper(u: Seq<char>) -> Option<Method> {
    if u == "GET"@ {
        Some(Method::Get)
    } else if u == "POST"@ {
        Some(Method::Post)
    } else {
        None
    }
}

impl Method {
    /// The method's name as it appears on the wire.
    pub fn name(&self) -> (r: String)
        ensures
            r@ == method_name(*self),
    {
        match self {
            Method::Get => "GET".to_owned(),
            Method::Post => "POST".to_owned(),
        }
    }

    /// Decides the method for a token that is already in upper case.
    pub fn from_upper(u: String) -> (r: Result<Method, MethodParseError>)
        ensures
            match r {
                Ok(m) => method_of_upper(u@) == Some(m),
                Err(e) => method_of_upper(u@) is None && e.0@ == u@,
            },
    {
        let get = "GET".to_owned();
        let post = "POST".to_owned();
        proof {
            reveal_strlit("GET");
            reveal_strlit("POST");
        }
        if u == get {
            Ok(Method::Get)
        } else if u == post {
            Ok(Method::Post)
        } else {
            Err(MethodParseError(u))
        }
    }

    /// Parses a method token, ignoring case.
    pub fn parse(s: &str) -> (r: Result<Method, MethodParseError>)
        ensures
            match r {
                Ok(m) => method_of_upper(upper_of(s@)) == Some(m),
                Err(e) => method_of_upper(upper_of(s@)) is None && e.0@ == upper_of(s@),
            },
    {
        Method::from_upper(to_upper(s))
    }
}

impl std::str::FromStr for Method {
    type Err = MethodParseError;

    fn from_str(s: &str) -> Result<Method, MethodParseError> {
        Method::parse(s)
    }
}

} // verus!
