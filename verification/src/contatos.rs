//! The contact record: a pure data carrier with a mathematical view.

use vstd::prelude::*;

verus! {

/// One contact: a name, a phone number, and an optional email address and
/// postal address. Construction never fails; any validation of the phone
/// format belongs to the presentation layer, before a record reaches the
/// directory.
#[derive(Debug, PartialEq)]
pub struct Contato {
    pub nome: String,
    pub telefone: String,
    pub email: Option<String>,
    pub endereco: Option<String>,
}

/// The mathematical value of a contact: each text field as a sequence of
/// characters.
pub ghost struct ContatoV {
    pub nome: Seq<char>,
    pub telefone: Seq<char>,
    pub email: Option<Seq<char>>,
    pub endereco: Option<Seq<char>>,
}

impl View for Contato {
    type V = ContatoV;

    open spec fn view(&self) -> ContatoV {
        ContatoV {
            nome: self.nome@,
            telefone: self.telefone@,
            email: self.email.deep_view(),
            endereco: self.endereco.deep_view(),
        }
    }
}

impl DeepView for Contato {
    type V = ContatoV;

    open spec fn deep_view(&self) -> ContatoV {
        self.view()
    }
}

impl Clone for Contato {
    fn clone(&self) -> (r: Self)
        ensures
            r@ == self@,
    {
        Contato {
            nome: self.nome.clone(),
            telefone: self.telefone.clone(),
            email: clonar_opcional(&self.email),
            endereco: clonar_opcional(&self.endereco),
        }
    }
}

/// Clones an optional text field, keeping its value.
fn clonar_opcional(o: &Option<String>) -> (r: Option<String>)
    ensures
        r.deep_view() == o.deep_view(),
{
    match o {
        Option::None => Option::None,
        Option::Some(s) => Option::Some(s.clone()),
    }
}

} // verus!
