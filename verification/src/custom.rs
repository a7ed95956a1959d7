//! A request for any function of the service, with parameters of the
//! caller's choosing.

use vstd::prelude::*;
use vstd::string::*;

verus! {

/// The part of a query that one extra parameter adds: `&`, its key, `=`
/// and its value.
pub open spec fn parameter_text(parameter: (Seq<char>, Seq<char>)) -> Seq<char> {
    "&"@ + parameter.0 + "="@ + parameter.1
}

/// The part of a query that the extra parameters add, one after the other.
pub open spec fn parameters_text(extras: Seq<(Seq<char>, Seq<char>)>) -> Seq<char> {
    extras.map_values(|p: (Seq<char>, Seq<char>)| parameter_text(p)).flatten()
}

/// Builder to create new Custom Struct
pub struct CustomBuilder<'a> {
    function: &'a str,
    extras: Vec<(&'a str, &'a str)>,
}

impl<'a> CustomBuilder<'a> {
    /// The name of the function that is asked for.
    pub closed spec fn function(&self) -> Seq<char> {
        self.function@
    }

    /// The extra parameters, key and value, in the order in which they
    /// were added.
    pub closed spec fn extras(&self) -> Seq<(Seq<char>, Seq<char>)> {
        self.extras@.map_values(|p: (&str, &str)| (p.0@, p.1@))
    }

    /// Create new `CustomBuilder` for a function of the service
    #[must_use]
    pub fn new(function: &'a str) -> (r: Self)
        ensures
            r.function() == function@,
            r.extras() == Seq::<(Seq<char>, Seq<char>)>::empty(),
    {
        let r = Self { function, extras: Vec::new() };
        assert(r.extras() =~= Seq::<(Seq<char>, Seq<char>)>::empty());
        r
    }

    /// Add extra parameter to url
    pub fn extra_params(&mut self, key: &'a str, value: &'a str) -> (r: &mut Self)
        ensures
            r.function() == old(self).function(),
            r.extras() == old(self).extras().push((key@, value@)),
            *final(self) == *final(r),
    {
        self.extras.push((key, value));
        assert(self.extras() =~= old(self).extras().push((key@, value@)));
        self
    }

    /// The path and query of the request: the function, then each extra
    /// parameter in the order in which it was added.
    pub fn create_url(&self) -> (path: String)
        ensures
            path@ == "query?function="@ + self.function() + parameters_text(self.extras()),
    {
        let mut path = String::from_str("query?function=");
        path.append(self.function);
        let ghost head = "query?function="@ + self.function();
        let ghost parts = self.extras().map_values(|p: (Seq<char>, Seq<char>)| parameter_text(p));
        let mut i: usize = 0;
        assert(head + parts.take(0).flatten() =~= head);
        while i < self.extras.len()
            invariant
                i <= self.extras.len(),
                parts == self.extras().map_values(|p: (Seq<char>, Seq<char>)| parameter_text(p)),
                path@ == head + parts.take(i as int).flatten(),
            decreases self.extras.len() - i,
        {
            let ghost before = path@;
            let (key, value) = self.extras[i];
            path.append("&");
            path.append(key);
            path.append("=");
            path.append(value);
            proof {
                let part = parameter_text((key@, value@));
                assert(parts[i as int] == part);
                assert(path@ =~= before + part);
                assert(parts.take(i + 1) =~= parts.take(i as int).push(part));
                parts.take(i as int).lemma_flatten_push(part);
                assert(path@ =~= head + parts.take(i + 1).flatten());
            }
            i += 1;
        }
        assert(parts.take(i as int) =~= parts);
        path
    }
}

} // verus!
