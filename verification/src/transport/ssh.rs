//! How a helper is launched over SSH.
//!
//! SSH only starts the helper. Once it runs, it speaks the framed protocol on
//! its standard streams.

use crate::endpoint::RemoteEndpoint;
use vstd::prelude::*;

verus! {

/// A program and its arguments.
#[derive(Debug, Clone, PartialEq, Eq)]
pub struct Invocation {
    pub program: String,
    pub args: Vec<String>,
}

/// What the texts of a list say.
pub open spec fn texts_of(list: Seq<String>) -> Seq<Seq<char>> {
    list.map_values(|text: String| text@)
}

/// The texts of a list, separated by spaces.
pub open spec fn spaced(list: Seq<Seq<char>>) -> Seq<char>
    decreases list.len(),
{
    if list.len() == 0 {
        Seq::empty()
    } else if list.len() == 1 {
        list[0]
    } else {
        spaced(list.drop_last()) + " "@ + list.last()
    }
}

/// Whom SSH connects to: `user@host`, or the host alone.
pub open spec fn destination_text(user: Option<Seq<char>>, host: Seq<char>) -> Seq<char> {
    match user {
        Some(user) => user + "@"@ + host,
        None => host,
    }
}

/// Whom SSH connects to.
pub fn ssh_destination(endpoint: &RemoteEndpoint) -> (destination: String)
    ensures
        destination@ == destination_text(
            crate::endpoint::text_in(endpoint.user),
            endpoint.host@,
        ),
{
    match &endpoint.user {
        Some(user) => {
            let mut destination = user.clone();
            destination.append("@");
            destination.append(endpoint.host.as_str());
            destination
        },
        None => endpoint.host.clone(),
    }
}

impl Invocation {
    /// The invocation that starts the helper on the machine of `endpoint`.
    pub fn helper(endpoint: &RemoteEndpoint) -> (invocation: Self)
        ensures
            invocation.program@ == "ssh"@,
            texts_of(invocation.args@) == seq![
                destination_text(crate::endpoint::text_in(endpoint.user), endpoint.host@),
                "--"@,
                "oni"@,
                "internal"@,
                "serve"@,
                "--stdio"@,
            ],
    {
        let args = vec![
            ssh_destination(endpoint),
            "--".to_string(),
            "oni".to_string(),
            "internal".to_string(),
            "serve".to_string(),
            "--stdio".to_string(),
        ];
        assert(texts_of(args@) =~= seq![
            destination_text(crate::endpoint::text_in(endpoint.user), endpoint.host@),
            "--"@,
            "oni"@,
            "internal"@,
            "serve"@,
            "--stdio"@,
        ]);
        Invocation { program: "ssh".to_string(), args }
    }

    /// The command line, for error messages.
    pub fn target(&self) -> (target: String)
        ensures
            target@ == spaced(seq![self.program@] + texts_of(self.args@)),
    {
        let ghost all = seq![self.program@] + texts_of(self.args@);
        let mut target = self.program.clone();
        let mut index: usize = 0;
        assert(all.take(1) =~= seq![self.program@]);
        while index < self.args.len()
            invariant
                index <= self.args@.len(),
                all == seq![self.program@] + texts_of(self.args@),
                target@ == spaced(all.take(index + 1)),
            decreases self.args.len() - index,
        {
            target.append(" ");
            target.append(self.args[index].as_str());
            assert(all.take(index + 2).drop_last() =~= all.take(index + 1));
            assert(all.take(index + 2).last() == self.args@[index as int]@);
            index = index + 1;
        }
        assert(all.take(index + 1) =~= all);
        target
    }
}

/// Whom SSH connects to, with a colon and a path behind, names the endpoint again.
pub proof fn lemma_destinations_name_the_endpoint(
    user: Option<Seq<char>>,
    host: Seq<char>,
    path: Seq<char>,
)
    requires
        host.len() > 0,
        path.len() > 0,
        user matches Some(name) ==> name.len() > 0 && forall|i: int|
            0 <= i < name.len() ==> #[trigger] name[i] != '@' && name[i] != ':' && name[i] != '/',
        forall|i: int| 0 <= i < host.len() ==> #[trigger] host[i] != ':' && host[i] != '/',
        user is None ==> forall|i: int| 0 <= i < host.len() ==> #[trigger] host[i] != '@',
    ensures
        crate::endpoint::place_named(destination_text(user, host) + seq![':'] + path) == Ok::<
            crate::endpoint::Place,
            crate::endpoint::Misspelling,
        >(crate::endpoint::Place::Remote { user, host, path }),
{
    reveal_strlit("@");
    assert("@"@ =~= seq!['@']);
    crate::endpoint::lemma_remote_endpoints_round_trip(user, host, path);
}

/// A list of texts is written with one space between each two, and nothing else.
pub proof fn lemma_texts_are_spaced(list: Seq<Seq<char>>, last: Seq<char>)
    ensures
        spaced(Seq::empty()) == Seq::<char>::empty(),
        spaced(seq![last]) == last,
        list.len() > 0 ==> spaced(list.push(last)) == spaced(list) + seq![' '] + last,
{
    reveal_strlit(" ");
    assert(" "@ =~= seq![' ']);
    assert(list.push(last).drop_last() =~= list);
}

} // verus!
