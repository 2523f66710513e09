//! The form state behind a presentation shell: the fields being edited, the
//! search box and the view toggle, together with the directory they act on.
//! The shell itself (widgets, window, input validation) stays outside the
//! library and only calls in.

use vstd::prelude::*;
use crate::agenda::Agenda;
use crate::agenda::apos_adicionar;
use crate::contatos::Contato;
use crate::contatos::ContatoV;
use crate::formato;

verus! {

/// How a shell renders a record: as a structured document or as labelled
/// lines.
pub enum Visualizacao {
    Json,
    Formatada,
}

/// The form state: the four fields being edited, the search text, the chosen
/// rendering, and the directory they act on.
pub struct App {
    pub agenda: Agenda,
    pub nome: String,
    pub telefone: String,
    pub email: String,
    pub endereco: String,
    pub visualizacao: Visualizacao,
    pub pesquisa: String,
}

/// What `minusculas` returns: the lower-case folding that the standard
/// library applies, a function of the characters alone.
pub uninterp spec fn minusculas_de(s: Seq<char>) -> Seq<char>;

/// Relies on str::to_lowercase: the Unicode lower-case mapping, a function
/// of the characters alone; an empty text stays empty.
#[verifier::external_body]
fn minusculas(s: &str) -> (r: String)
    ensures
        r@ == minusculas_de(s@),
        s@.len() == 0 ==> r@.len() == 0,
{
    s.to_lowercase()
}

/// Whether `padrao` occurs in `s` as a contiguous run of characters.
pub open spec fn contem_em(s: Seq<char>, padrao: Seq<char>) -> bool {
    exists|i: int|
        0 <= i <= s.len() - padrao.len() && #[trigger] s.subrange(i, i + padrao.len()) == padrao
}

/// Relies on str::contains with a text pattern: whether the pattern occurs
/// in the text as a contiguous run of characters.
#[verifier::external_body]
fn contem(s: &str, padrao: &str) -> (r: bool)
    ensures
        r == contem_em(s@, padrao@),
{
    s.contains(padrao)
}

/// The record the form fields describe: an empty optional field read as
/// absent.
pub open spec fn registro_do_formulario(
    nome: Seq<char>,
    telefone: Seq<char>,
    email: Seq<char>,
    endereco: Seq<char>,
) -> ContatoV {
    ContatoV {
        nome: nome,
        telefone: telefone,
        email: formato::opcional(email),
        endereco: formato::opcional(endereco),
    }
}

/// Whether a record answers a search text already folded to lower case: the
/// record's name, folded the same way, contains it.
pub open spec fn busca_sel(pesquisa: Seq<char>) -> spec_fn(ContatoV) -> bool {
    |c: ContatoV| contem_em(minusculas_de(c.nome), pesquisa)
}

impl App {
    /// An empty form over the given directory, rendering records as a
    /// structured document.
    pub fn novo(agenda: Agenda) -> (r: App)
        ensures
            r.agenda == agenda,
            r.nome@ == Seq::<char>::empty(),
            r.telefone@ == Seq::<char>::empty(),
            r.email@ == Seq::<char>::empty(),
            r.endereco@ == Seq::<char>::empty(),
            r.pesquisa@ == Seq::<char>::empty(),
            r.visualizacao == Visualizacao::Json,
    {
        App {
            agenda,
            nome: String::new(),
            telefone: String::new(),
            email: String::new(),
            endereco: String::new(),
            visualizacao: Visualizacao::Json,
            pesquisa: String::new(),
        }
    }

    /// Reads the form fields as one record, an empty optional field becoming
    /// absent, adds it to the directory, and clears the fields. The search
    /// text and the chosen rendering stay.
    pub fn adicionar_contato(&mut self)
        requires
            old(self).agenda.bem_formada(),
        ensures
            final(self).agenda.bem_formada(),
            final(self).agenda@ == apos_adicionar(
                old(self).agenda@,
                registro_do_formulario(
                    old(self).nome@,
                    old(self).telefone@,
                    old(self).email@,
                    old(self).endereco@,
                ),
            ),
            final(self).nome@ == Seq::<char>::empty(),
            final(self).telefone@ == Seq::<char>::empty(),
            final(self).email@ == Seq::<char>::empty(),
            final(self).endereco@ == Seq::<char>::empty(),
            final(self).pesquisa == old(self).pesquisa,
            final(self).visualizacao == old(self).visualizacao,
    {
        let contato = Contato {
            nome: self.nome.clone(),
            telefone: self.telefone.clone(),
            email: if self.email.as_str().is_empty() {
                Option::None
            } else {
                Option::Some(self.email.clone())
            },
            endereco: if self.endereco.as_str().is_empty() {
                Option::None
            } else {
                Option::Some(self.endereco.clone())
            },
        };
        self.agenda.adicionar_contato(contato);
        self.nome = String::new();
        self.telefone = String::new();
        self.email = String::new();
        self.endereco = String::new();
    }

    /// The records whose name contains the search text, both folded to lower
    /// case: the listing filtered by the search box, in insertion order.
    pub fn pesquisar_contatos(&self) -> (r: Vec<Contato>)
        ensures
            r.deep_view() == self.agenda@.lista.filter(busca_sel(minusculas_de(self.pesquisa@))),
    {
        let pesquisa = minusculas(self.pesquisa.as_str());
        let todos = self.agenda.mostrar_todos_nomes();
        let ghost lista = self.agenda@.lista;
        let ghost pred = busca_sel(minusculas_de(self.pesquisa@));
        let mut r: Vec<Contato> = Vec::new();
        let mut i: usize = 0;
        proof {
            reveal(Seq::filter);
            assert(lista.subrange(0, 0) =~= Seq::<ContatoV>::empty());
            assert(r.deep_view() =~~= lista.subrange(0, 0).filter(pred));
        }
        while i < todos.len()
            invariant
                0 <= i <= todos.len(),
                todos.deep_view() == lista,
                lista.len() == todos.len(),
                pesquisa@ == minusculas_de(self.pesquisa@),
                pred == busca_sel(minusculas_de(self.pesquisa@)),
                r.deep_view() == lista.subrange(0, i as int).filter(pred),
            decreases todos.len() - i,
        {
            let ghost antes = r.deep_view();
            let nome_minusculo = minusculas(todos[i].nome.as_str());
            proof {
                assert(todos.deep_view()[i as int] == todos[i as int]@);
            }
            if contem(nome_minusculo.as_str(), pesquisa.as_str()) {
                r.push(todos[i].clone());
                proof {
                    assert(r.deep_view() =~~= antes.push(lista[i as int]));
                }
            }
            proof {
                broadcast use Seq::lemma_filter_push;

                assert(lista.subrange(0, i as int + 1) =~= lista.subrange(0, i as int).push(
                    lista[i as int],
                ));
                assert(lista.subrange(0, i as int).push(lista[i as int]).filter(pred) == if pred(
                    lista[i as int],
                ) {
                    lista.subrange(0, i as int).filter(pred).push(lista[i as int])
                } else {
                    lista.subrange(0, i as int).filter(pred)
                });
                assert(r.deep_view() =~~= lista.subrange(0, i as int + 1).filter(pred));
            }
            i = i + 1;
        }
        proof {
            assert(lista.subrange(0, lista.len() as int) =~= lista);
        }
        r
    }
}

} // verus!
