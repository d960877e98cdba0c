use vstd::prelude::*;

verus! {

/// The request methods this server understands.
#[derive(Clone, Copy, Debug, PartialEq, Eq, Structural)]
pub enum Method {
    GET,
    PUT,
    POST,
    HEAD,
    PATCH,
    TRACE,
    DELETE,
    OPTIONS,
    CONNECT,
}

/// Why a method token was rejected.
#[derive(Clone, Copy, Debug, PartialEq, Eq, Structural)]
pub enum MethodError {
    /// The token has a length no method has.
    InvalidLength,
    /// The token has a method's length but names none.
    InvalidMethod,
}

/// The method a token names, if any.
pub open spec fn method_of(t: Seq<u8>) -> Option<Method> {
    if t == seq![71u8, 69, 84] { Some(Method::GET) }
    else if t == seq![80u8, 85, 84] { Some(Method::PUT) }
    else if t == seq![80u8, 79, 83, 84] { Some(Method::POST) }
    else if t == seq![72u8, 69, 65, 68] { Some(Method::HEAD) }
    else if t == seq![80u8, 65, 84, 67, 72] { Some(Method::PATCH) }
    else if t == seq![84u8, 82, 65, 67, 69] { Some(Method::TRACE) }
    else if t == seq![68u8, 69, 76, 69, 84, 69] { Some(Method::DELETE) }
    else if t == seq![79u8, 80, 84, 73, 79, 78, 83] { Some(Method::OPTIONS) }
    else if t == seq![67u8, 79, 78, 78, 69, 67, 84] { Some(Method::CONNECT) }
    else { None }
}

/// Whether `t` equals the bytes of `w`.
pub fn bytes_eq(t: &[u8], w: &[u8]) -> (r: bool)
    ensures
        r == (t@ == w@),
{
    if t.len() != w.len() {
        return false;
    }
    let mut i: usize = 0;
    while i < t.len()
        invariant
            t@.len() == w@.len(),
            0 <= i <= t@.len(),
            forall|j: int| 0 <= j < i ==> t@[j] == w@[j],
        decreases t@.len() - i,
    {
        if t[i] != w[i] {
            return false;
        }
        i = i + 1;
    }
    assert(t@ =~= w@);
    true
}

impl Method {
    /// Reads a method from its ASCII token.
    pub fn from_bytes(inpt: &[u8]) -> (r: Result<Method, MethodError>)
        ensures
            method_of(inpt@) matches Some(m) ==> r == Ok::<Method, MethodError>(m),
            method_of(inpt@) is None ==> r is Err,
            r matches Err(e) ==> (e == MethodError::InvalidLength <==> !(3 <= inpt@.len() <= 7)),
    {
        let n = inpt.len();
        if n < 3 || n > 7 {
            return Err(MethodError::InvalidLength);
        }
        if bytes_eq(inpt, &[71u8, 69, 84]) {
            Ok(Method::GET)
        } else if bytes_eq(inpt, &[80u8, 85, 84]) {
            Ok(Method::PUT)
        } else if bytes_eq(inpt, &[80u8, 79, 83, 84]) {
            Ok(Method::POST)
        } else if bytes_eq(inpt, &[72u8, 69, 65, 68]) {
            Ok(Method::HEAD)
        } else if bytes_eq(inpt, &[80u8, 65, 84, 67, 72]) {
            Ok(Method::PATCH)
        } else if bytes_eq(inpt, &[84u8, 82, 65, 67, 69]) {
            Ok(Method::TRACE)
        } else if bytes_eq(inpt, &[68u8, 69, 76, 69, 84, 69]) {
            Ok(Method::DELETE)
        } else if bytes_eq(inpt, &[79u8, 80, 84, 73, 79, 78, 83]) {
            Ok(Method::OPTIONS)
        } else if bytes_eq(inpt, &[67u8, 79, 78, 78, 69, 67, 84]) {
            Ok(Method::CONNECT)
        } else {
            Err(MethodError::InvalidMethod)
        }
    }
}

} // verus!
