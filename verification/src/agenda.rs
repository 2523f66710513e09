//! The directory: an in-memory collection of contacts with lookup by name,
//! lookup by phone, and an insertion-ordered listing. A later add with an
//! already-stored name or phone overwrites that index entry, but the earlier
//! record stays in the ordered listing until a removal clears every entry
//! under the removed key.

use vstd::prelude::*;
use crate::contatos::Contato;
use crate::contatos::ContatoV;
use crate::formato;

verus! {

/// The mathematical state of a directory: the name index, the phone index,
/// and the insertion-ordered listing.
#[verifier::ext_equal]
pub ghost struct AgendaV {
    pub nomes: Map<Seq<char>, ContatoV>,
    pub telefones: Map<Seq<char>, ContatoV>,
    pub lista: Seq<ContatoV>,
}

/// An in-memory contact directory. Both index columns hold at most one
/// record per key; the listing keeps every added record in insertion order.
pub struct Agenda {
    contatos_por_nome: Vec<Contato>,
    contatos_por_telefone: Vec<Contato>,
    lista_contatos: Vec<Contato>,
}

/// The key an index column uses: the phone when `por_telefone` holds, the
/// name otherwise.
pub open spec fn chave_sel(por_telefone: bool) -> spec_fn(ContatoV) -> Seq<char> {
    if por_telefone {
        |c: ContatoV| c.telefone
    } else {
        |c: ContatoV| c.nome
    }
}

/// The finite map that an index column denotes, each record keyed by
/// `chave`, a later record overwriting an earlier one under the same key.
pub open spec fn indice_por(
    s: Seq<ContatoV>,
    chave: spec_fn(ContatoV) -> Seq<char>,
) -> Map<Seq<char>, ContatoV>
    decreases s.len(),
{
    if s.len() == 0 {
        Map::empty()
    } else {
        indice_por(s.drop_last(), chave).insert(chave(s.last()), s.last())
    }
}

/// Whether each key appears at most once in an index column.
pub open spec fn chaves_unicas(s: Seq<ContatoV>, chave: spec_fn(ContatoV) -> Seq<char>) -> bool {
    forall|i: int, j: int| 0 <= i < j < s.len() ==> chave(#[trigger] s[i]) != chave(#[trigger] s[j])
}

/// An index column holds a key exactly when some record of it carries that
/// key.
pub proof fn lema_indice_dominio(
    s: Seq<ContatoV>,
    chave: spec_fn(ContatoV) -> Seq<char>,
    x: Seq<char>,
)
    ensures
        indice_por(s, chave).contains_key(x) <==> exists|i: int|
            0 <= i < s.len() && chave(#[trigger] s[i]) == x,
    decreases s.len(),
{
    if s.len() == 0 {
    } else {
        let resto = s.drop_last();
        lema_indice_dominio(resto, chave, x);
        assert(forall|i: int| 0 <= i < resto.len() ==> resto[i] == s[i]);
        if chave(s.last()) == x {
            assert(chave(s[s.len() - 1]) == x);
        } else {
            if indice_por(s, chave).contains_key(x) {
                let i = choose|i: int| 0 <= i < resto.len() && chave(#[trigger] resto[i]) == x;
                assert(chave(s[i]) == x);
            }
            if exists|i: int| 0 <= i < s.len() && chave(#[trigger] s[i]) == x {
                let i = choose|i: int| 0 <= i < s.len() && chave(#[trigger] s[i]) == x;
                assert(i != s.len() - 1);
                assert(chave(resto[i]) == x);
            }
        }
    }
}

/// In a column with unique keys, the index maps each record's key to that
/// record.
pub proof fn lema_indice_valor(s: Seq<ContatoV>, chave: spec_fn(ContatoV) -> Seq<char>, i: int)
    requires
        chaves_unicas(s, chave),
        0 <= i < s.len(),
    ensures
        indice_por(s, chave).contains_key(chave(s[i])),
        indice_por(s, chave)[chave(s[i])] == s[i],
    decreases s.len(),
{
    if i == s.len() - 1 {
    } else {
        let resto = s.drop_last();
        assert(forall|j: int| 0 <= j < resto.len() ==> resto[j] == s[j]);
        lema_indice_valor(resto, chave, i);
        assert(chave(s[s.len() - 1]) != chave(s[i]));
    }
}

/// Removing the record at one position of a column with unique keys removes
/// exactly its key from the index.
pub proof fn lema_indice_remocao(s: Seq<ContatoV>, chave: spec_fn(ContatoV) -> Seq<char>, i: int)
    requires
        chaves_unicas(s, chave),
        0 <= i < s.len(),
    ensures
        indice_por(s.remove(i), chave) == indice_por(s, chave).remove(chave(s[i])),
    decreases s.len(),
{
    let x = chave(s[i]);
    let resto = s.drop_last();
    assert(forall|j: int| 0 <= j < resto.len() ==> resto[j] == s[j]);
    if i == s.len() - 1 {
        assert(s.remove(i) =~= resto);
        lema_indice_dominio(resto, chave, x);
        assert(!indice_por(resto, chave).contains_key(x));
        assert(indice_por(resto, chave).insert(x, s.last()).remove(x) =~~= indice_por(
            resto,
            chave,
        ));
    } else {
        assert(s.remove(i).drop_last() =~= resto.remove(i));
        assert(s.remove(i).last() == s.last());
        lema_indice_remocao(resto, chave, i);
        assert(chave(s[i]) != chave(s[s.len() - 1]));
        assert(indice_por(resto, chave).remove(x).insert(chave(s.last()), s.last()) =~~= indice_por(
            resto,
            chave,
        ).insert(chave(s.last()), s.last()).remove(x));
    }
}

/// A column with unique keys keeps them unique when one record is removed.
pub proof fn lema_unicidade_remocao(
    s: Seq<ContatoV>,
    chave: spec_fn(ContatoV) -> Seq<char>,
    i: int,
)
    requires
        chaves_unicas(s, chave),
        0 <= i < s.len(),
    ensures
        chaves_unicas(s.remove(i), chave),
{
    assert forall|a: int, b: int|
        0 <= a < b < s.remove(i).len() implies chave(#[trigger] s.remove(i)[a]) != chave(
        #[trigger] s.remove(i)[b],
    ) by {
        let a2: int = if a < i {
            a
        } else {
            a + 1
        };
        let b2: int = if b < i {
            b
        } else {
            b + 1
        };
        assert(s.remove(i)[a] == s[a2]);
        assert(s.remove(i)[b] == s[b2]);
    }
}

/// Whether a listing entry survives a removal under the given key: the
/// record is kept when its phone (or its name) differs from the key.
pub open spec fn mantem_sel(por_telefone: bool, chave: Seq<char>) -> spec_fn(ContatoV) -> bool {
    if por_telefone {
        |c: ContatoV| c.telefone != chave
    } else {
        |c: ContatoV| c.nome != chave
    }
}

/// The listing without every record carrying the given name.
pub open spec fn sem_nome(l: Seq<ContatoV>, nome: Seq<char>) -> Seq<ContatoV> {
    l.filter(mantem_sel(false, nome))
}

/// The listing without every record carrying the given phone.
pub open spec fn sem_telefone(l: Seq<ContatoV>, telefone: Seq<char>) -> Seq<ContatoV> {
    l.filter(mantem_sel(true, telefone))
}

impl View for Agenda {
    type V = AgendaV;

    closed spec fn view(&self) -> AgendaV {
        AgendaV {
            nomes: indice_por(self.contatos_por_nome.deep_view(), chave_sel(false)),
            telefones: indice_por(self.contatos_por_telefone.deep_view(), chave_sel(true)),
            lista: self.lista_contatos.deep_view(),
        }
    }
}

/// The state of a directory with nothing stored.
pub open spec fn agenda_vazia() -> AgendaV {
    AgendaV {
        nomes: Map::empty(),
        telefones: Map::empty(),
        lista: Seq::empty(),
    }
}

/// The state after a record is added: the record takes its name's and its
/// phone's index entries and is appended to the listing.
pub open spec fn apos_adicionar(a: AgendaV, c: ContatoV) -> AgendaV {
    AgendaV {
        nomes: a.nomes.insert(c.nome, c),
        telefones: a.telefones.insert(c.telefone, c),
        lista: a.lista.push(c),
    }
}

/// The state after a removal by name: when the name is indexed, its record
/// leaves both indexes and every listing entry under that name is dropped;
/// when it is not, nothing changes.
pub open spec fn apos_remover_por_nome(a: AgendaV, nome: Seq<char>) -> AgendaV {
    if a.nomes.contains_key(nome) {
        AgendaV {
            nomes: a.nomes.remove(nome),
            telefones: a.telefones.remove(a.nomes[nome].telefone),
            lista: sem_nome(a.lista, nome),
        }
    } else {
        a
    }
}

/// The state after a removal by phone: when the phone is indexed, its record
/// leaves both indexes and every listing entry under that phone is dropped;
/// when it is not, nothing changes.
pub open spec fn apos_remover_por_telefone(a: AgendaV, telefone: Seq<char>) -> AgendaV {
    if a.telefones.contains_key(telefone) {
        AgendaV {
            nomes: a.nomes.remove(a.telefones[telefone].nome),
            telefones: a.telefones.remove(telefone),
            lista: sem_telefone(a.lista, telefone),
        }
    } else {
        a
    }
}

/// The state a record list rebuilds when its records are added in order to
/// an empty directory.
pub open spec fn agenda_de(l: Seq<ContatoV>) -> AgendaV
    decreases l.len(),
{
    if l.len() == 0 {
        agenda_vazia()
    } else {
        apos_adicionar(agenda_de(l.drop_last()), l.last())
    }
}

impl Agenda {
    /// Internal invariant: within each index column, every key appears at
    /// most once.
    pub closed spec fn bem_formada(&self) -> bool {
        &&& chaves_unicas(self.contatos_por_nome.deep_view(), chave_sel(false))
        &&& chaves_unicas(self.contatos_por_telefone.deep_view(), chave_sel(true))
    }

    /// A directory with nothing stored.
    pub fn novo() -> (r: Agenda)
        ensures
            r.bem_formada(),
            r@ == agenda_vazia(),
    {
        let r = Agenda {
            contatos_por_nome: Vec::new(),
            contatos_por_telefone: Vec::new(),
            lista_contatos: Vec::new(),
        };
        proof {
            assert(r.contatos_por_nome.deep_view() =~~= Seq::<ContatoV>::empty());
            assert(r.contatos_por_telefone.deep_view() =~~= Seq::<ContatoV>::empty());
            assert(r.lista_contatos.deep_view() =~~= Seq::<ContatoV>::empty());
            assert(r@ =~~= agenda_vazia());
        }
        r
    }

    /// Inserts or overwrites by name key and by phone key, and appends the
    /// record to the listing. An earlier record under the same name or phone
    /// leaves the indexes but stays in the listing.
    pub fn adicionar_contato(&mut self, contato: Contato)
        requires
            old(self).bem_formada(),
        ensures
            final(self).bem_formada(),
            final(self)@ == apos_adicionar(old(self)@, contato@),
    {
        let ghost nomes_antes = self@.nomes;
        let ghost telefones_antes = self@.telefones;
        let _ = remover_de_indice(&mut self.contatos_por_nome, &contato.nome, false);
        let ghost coluna = self.contatos_por_nome.deep_view();
        self.contatos_por_nome.push(contato.clone());
        proof {
            assert(self.contatos_por_nome.deep_view() =~~= coluna.push(contato@));
            assert(coluna.push(contato@).drop_last() =~= coluna);
            lema_indice_dominio(coluna, chave_sel(false), contato@.nome);
            assert forall|i: int, j: int|
                0 <= i < j < coluna.push(contato@).len() implies chave_sel(false)(
                #[trigger] coluna.push(contato@)[i],
            ) != chave_sel(false)(#[trigger] coluna.push(contato@)[j]) by {
                assert(coluna.push(contato@)[i] == coluna[i]);
            }
            assert(indice_por(coluna.push(contato@), chave_sel(false)) =~~= nomes_antes.insert(
                contato@.nome,
                contato@,
            ));
        }
        let _ = remover_de_indice(&mut self.contatos_por_telefone, &contato.telefone, true);
        let ghost coluna_tel = self.contatos_por_telefone.deep_view();
        self.contatos_por_telefone.push(contato.clone());
        proof {
            assert(self.contatos_por_telefone.deep_view() =~~= coluna_tel.push(contato@));
            assert(coluna_tel.push(contato@).drop_last() =~= coluna_tel);
            lema_indice_dominio(coluna_tel, chave_sel(true), contato@.telefone);
            assert forall|i: int, j: int|
                0 <= i < j < coluna_tel.push(contato@).len() implies chave_sel(true)(
                #[trigger] coluna_tel.push(contato@)[i],
            ) != chave_sel(true)(#[trigger] coluna_tel.push(contato@)[j]) by {
                assert(coluna_tel.push(contato@)[i] == coluna_tel[i]);
            }
            assert(indice_por(coluna_tel.push(contato@), chave_sel(true))
                =~~= telefones_antes.insert(contato@.telefone, contato@));
        }
        let ghost lista_antes = self.lista_contatos.deep_view();
        self.lista_contatos.push(contato);
        proof {
            assert(self.lista_contatos.deep_view() =~~= lista_antes.push(
                self.lista_contatos.deep_view().last(),
            ));
            assert(self@ =~~= apos_adicionar(old(self)@, self.lista_contatos.deep_view().last()));
        }
    }

    /// Exact-match lookup by name: the record under the name's index entry,
    /// or absent when the name is not indexed. No side effects.
    pub fn buscar_por_nome(&self, nome: &str) -> (r: Option<&Contato>)
        requires
            self.bem_formada(),
        ensures
            match r {
                Some(c) => self@.nomes.contains_key(nome@) && c@ == self@.nomes[nome@],
                None => !self@.nomes.contains_key(nome@),
            },
    {
        let chave = nome.to_owned();
        let ghost s = self.contatos_por_nome.deep_view();
        match posicao(&self.contatos_por_nome, &chave, false) {
            Some(i) => {
                proof {
                    lema_indice_valor(s, chave_sel(false), i as int);
                    assert(self.contatos_por_nome.deep_view()[i as int]
                        == self.contatos_por_nome[i as int]@);
                }
                Some(&self.contatos_por_nome[i])
            },
            None => {
                proof {
                    lema_indice_dominio(s, chave_sel(false), nome@);
                }
                None
            },
        }
    }

    /// Exact-match lookup by phone: the record under the phone's index
    /// entry, or absent when the phone is not indexed. No side effects.
    pub fn buscar_por_telefone(&self, telefone: &str) -> (r: Option<&Contato>)
        requires
            self.bem_formada(),
        ensures
            match r {
                Some(c) => self@.telefones.contains_key(telefone@)
                    && c@ == self@.telefones[telefone@],
                None => !self@.telefones.contains_key(telefone@),
            },
    {
        let chave = telefone.to_owned();
        let ghost s = self.contatos_por_telefone.deep_view();
        match posicao(&self.contatos_por_telefone, &chave, true) {
            Some(i) => {
                proof {
                    lema_indice_valor(s, chave_sel(true), i as int);
                    assert(self.contatos_por_telefone.deep_view()[i as int]
                        == self.contatos_por_telefone[i as int]@);
                }
                Some(&self.contatos_por_telefone[i])
            },
            None => {
                proof {
                    lema_indice_dominio(s, chave_sel(true), telefone@);
                }
                None
            },
        }
    }

    /// A copy of the whole listing, in insertion order. The caller cannot
    /// corrupt the directory through it.
    pub fn mostrar_todos_nomes(&self) -> (r: Vec<Contato>)
        ensures
            r.deep_view() == self@.lista,
    {
        let mut r: Vec<Contato> = Vec::new();
        let mut i: usize = 0;
        proof {
            assert(r.deep_view() =~~= self@.lista.subrange(0, 0));
        }
        while i < self.lista_contatos.len()
            invariant
                0 <= i <= self.lista_contatos.len(),
                self@.lista.len() == self.lista_contatos.len(),
                self@.lista == self.lista_contatos.deep_view(),
                r.deep_view() == self@.lista.subrange(0, i as int),
            decreases self.lista_contatos.len() - i,
        {
            let ghost antes = r.deep_view();
            r.push(self.lista_contatos[i].clone());
            proof {
                assert(self.lista_contatos.deep_view()[i as int]
                    == self.lista_contatos[i as int]@);
                assert(r.deep_view() =~~= antes.push(self@.lista[i as int]));
                assert(self@.lista.subrange(0, i as int + 1) =~= self@.lista.subrange(
                    0,
                    i as int,
                ).push(self@.lista[i as int]));
            }
            i = i + 1;
        }
        proof {
            assert(self@.lista.subrange(0, self@.lista.len() as int) =~= self@.lista);
        }
        r
    }

    /// Removal by name. When the name is indexed, its record leaves both
    /// indexes, every listing entry under that name is dropped, and the
    /// record is returned; when it is not, the directory is left exactly as
    /// it was and absent is returned.
    pub fn remover_por_nome(&mut self, nome: &str) -> (r: Option<Contato>)
        requires
            old(self).bem_formada(),
        ensures
            final(self).bem_formada(),
            final(self)@ == apos_remover_por_nome(old(self)@, nome@),
            match r {
                Some(c) => old(self)@.nomes.contains_key(nome@) && c@ == old(self)@.nomes[nome@],
                None => !old(self)@.nomes.contains_key(nome@),
            },
    {
        let chave = nome.to_owned();
        match remover_de_indice(&mut self.contatos_por_nome, &chave, false) {
            Option::Some(c) => {
                let _ = remover_de_indice(&mut self.contatos_por_telefone, &c.telefone, true);
                let nova = reter_sem_chave(&self.lista_contatos, &chave, false);
                self.lista_contatos = nova;
                proof {
                    assert(self@ =~~= apos_remover_por_nome(old(self)@, nome@));
                }
                Option::Some(c)
            },
            Option::None => {
                proof {
                    assert(self@ =~~= apos_remover_por_nome(old(self)@, nome@));
                }
                Option::None
            },
        }
    }

    /// Removal by phone, symmetric to removal by name.
    pub fn remover_por_telefone(&mut self, telefone: &str) -> (r: Option<Contato>)
        requires
            old(self).bem_formada(),
        ensures
            final(self).bem_formada(),
            final(self)@ == apos_remover_por_telefone(old(self)@, telefone@),
            match r {
                Some(c) => old(self)@.telefones.contains_key(telefone@)
                    && c@ == old(self)@.telefones[telefone@],
                None => !old(self)@.telefones.contains_key(telefone@),
            },
    {
        let chave = telefone.to_owned();
        match remover_de_indice(&mut self.contatos_por_telefone, &chave, true) {
            Option::Some(c) => {
                let _ = remover_de_indice(&mut self.contatos_por_nome, &c.nome, false);
                let nova = reter_sem_chave(&self.lista_contatos, &chave, true);
                self.lista_contatos = nova;
                proof {
                    assert(self@ =~~= apos_remover_por_telefone(old(self)@, telefone@));
                }
                Option::Some(c)
            },
            Option::None => {
                proof {
                    assert(self@ =~~= apos_remover_por_telefone(old(self)@, telefone@));
                }
                Option::None
            },
        }
    }

    /// Rebuilds a directory from a record list, adding each record in order:
    /// what a load from the backing store does after decoding.
    pub fn de_registros(registros: Vec<Contato>) -> (r: Agenda)
        ensures
            r.bem_formada(),
            r@ == agenda_de(registros.deep_view()),
    {
        let ghost todos = registros.deep_view();
        let mut r = Agenda::novo();
        let mut i: usize = 0;
        proof {
            assert(todos.subrange(0, 0) =~= Seq::<ContatoV>::empty());
        }
        while i < registros.len()
            invariant
                0 <= i <= registros.len(),
                todos == registros.deep_view(),
                todos.len() == registros.len(),
                r.bem_formada(),
                r@ == agenda_de(todos.subrange(0, i as int)),
            decreases registros.len() - i,
        {
            r.adicionar_contato(registros[i].clone());
            proof {
                let frente = todos.subrange(0, i as int + 1);
                assert(frente.drop_last() =~= todos.subrange(0, i as int));
                assert(frente.last() == todos[i as int]);
                assert(registros.deep_view()[i as int] == registros[i as int]@);
            }
            i = i + 1;
        }
        proof {
            assert(todos.subrange(0, todos.len() as int) =~= todos);
        }
        r
    }

    /// Opens a directory from the backing store's content: absent content
    /// gives an empty directory, not an error; present content is read as
    /// the flat-text store, malformed lines skipped, and the records are
    /// added in order.
    pub fn abrir(conteudo: Option<&str>) -> (r: Agenda)
        ensures
            r.bem_formada(),
            match conteudo {
                Some(t) => r@ == agenda_de(formato::decodifica(t@)),
                None => r@ == agenda_vazia(),
            },
    {
        match conteudo {
            Option::Some(t) => {
                let registros = formato::decodificar(t);
                Agenda::de_registros(registros)
            },
            Option::None => Agenda::novo(),
        }
    }

    /// The store text of the whole listing: what a save writes to the
    /// backing store.
    pub fn salvar(&self) -> (r: String)
        ensures
            r@ == formato::texto_de(self@.lista),
    {
        formato::codificar(&self.lista_contatos)
    }
}

/// Position of the first record carrying the given key in an index column.
fn posicao(v: &Vec<Contato>, chave: &String, por_telefone: bool) -> (r: Option<usize>)
    ensures
        match r {
            Some(i) => i < v.len() && chave_sel(por_telefone)(v.deep_view()[i as int]) == chave@,
            None => forall|i: int|
                0 <= i < v.len() ==> chave_sel(por_telefone)(#[trigger] v.deep_view()[i])
                    != chave@,
        },
{
    let mut i: usize = 0;
    while i < v.len()
        invariant
            0 <= i <= v.len(),
            forall|j: int|
                0 <= j < i ==> chave_sel(por_telefone)(#[trigger] v.deep_view()[j]) != chave@,
        decreases v.len() - i,
    {
        let achou = if por_telefone {
            chave.eq(&v[i].telefone)
        } else {
            chave.eq(&v[i].nome)
        };
        if achou {
            proof {
                assert(v.deep_view()[i as int] == v[i as int]@);
            }
            return Some(i);
        }
        proof {
            assert(v.deep_view()[i as int] == v[i as int]@);
        }
        i = i + 1;
    }
    None
}

/// Removes the record carrying the given key, if any, from an index column:
/// exactly that key leaves the column's index.
fn remover_de_indice(v: &mut Vec<Contato>, chave: &String, por_telefone: bool) -> (r: Option<
    Contato,
>)
    requires
        chaves_unicas(old(v).deep_view(), chave_sel(por_telefone)),
    ensures
        chaves_unicas(final(v).deep_view(), chave_sel(por_telefone)),
        indice_por(final(v).deep_view(), chave_sel(por_telefone)) == indice_por(
            old(v).deep_view(),
            chave_sel(por_telefone),
        ).remove(chave@),
        match r {
            Some(c) => indice_por(old(v).deep_view(), chave_sel(por_telefone)).contains_key(chave@)
                && c@ == indice_por(old(v).deep_view(), chave_sel(por_telefone))[chave@],
            None => !indice_por(old(v).deep_view(), chave_sel(por_telefone)).contains_key(chave@)
                && *final(v) == *old(v),
        },
{
    let ghost s = v.deep_view();
    let ghost sel = chave_sel(por_telefone);
    match posicao(v, chave, por_telefone) {
        Some(i) => {
            proof {
                lema_indice_valor(s, sel, i as int);
                lema_indice_remocao(s, sel, i as int);
                lema_unicidade_remocao(s, sel, i as int);
            }
            let c = v.remove(i);
            proof {
                assert(c@ == s[i as int]);
                assert(v.deep_view() =~~= s.remove(i as int));
            }
            Some(c)
        },
        None => {
            proof {
                lema_indice_dominio(s, sel, chave@);
                assert(!indice_por(s, sel).contains_key(chave@));
                assert(indice_por(s, sel).remove(chave@) =~~= indice_por(s, sel));
            }
            None
        },
    }
}

/// A copy of the listing without every record carrying the given key.
fn reter_sem_chave(v: &Vec<Contato>, chave: &String, por_telefone: bool) -> (r: Vec<Contato>)
    ensures
        r.deep_view() == v.deep_view().filter(mantem_sel(por_telefone, chave@)),
{
    let ghost s = v.deep_view();
    let ghost pred = mantem_sel(por_telefone, chave@);
    let mut r: Vec<Contato> = Vec::new();
    let mut i: usize = 0;
    proof {
        reveal(Seq::filter);
        assert(s.subrange(0, 0) =~= Seq::<ContatoV>::empty());
        assert(r.deep_view() =~~= s.subrange(0, 0).filter(pred));
    }
    while i < v.len()
        invariant
            0 <= i <= v.len(),
            s == v.deep_view(),
            s.len() == v.len(),
            pred == mantem_sel(por_telefone, chave@),
            r.deep_view() == s.subrange(0, i as int).filter(pred),
        decreases v.len() - i,
    {
        let ghost antes = r.deep_view();
        let manter = if por_telefone {
            !chave.eq(&v[i].telefone)
        } else {
            !chave.eq(&v[i].nome)
        };
        proof {
            assert(v.deep_view()[i as int] == v[i as int]@);
            assert(manter == pred(s[i as int]));
        }
        if manter {
            r.push(v[i].clone());
            proof {
                assert(r.deep_view() =~~= antes.push(s[i as int]));
            }
        }
        proof {
            broadcast use Seq::lemma_filter_push;

            assert(s.subrange(0, i as int + 1) =~= s.subrange(0, i as int).push(s[i as int]));
            assert(s.subrange(0, i as int).push(s[i as int]).filter(pred) == if pred(
                s[i as int],
            ) {
                s.subrange(0, i as int).filter(pred).push(s[i as int])
            } else {
                s.subrange(0, i as int).filter(pred)
            });
            assert(r.deep_view() =~~= s.subrange(0, i as int + 1).filter(pred));
        }
        i = i + 1;
    }
    proof {
        assert(s.subrange(0, s.len() as int) =~= s);
    }
    r
}

/// Two filters that agree on every record of a listing keep the same
/// records.
proof fn lema_filtros_iguais(
    s: Seq<ContatoV>,
    p: spec_fn(ContatoV) -> bool,
    q: spec_fn(ContatoV) -> bool,
)
    requires
        forall|i: int| 0 <= i < s.len() ==> p(#[trigger] s[i]) == q(s[i]),
    ensures
        s.filter(p) == s.filter(q),
    decreases s.len(),
{
    reveal(Seq::filter);
    if s.len() == 0 {
    } else {
        assert(forall|i: int| 0 <= i < s.drop_last().len() ==> s.drop_last()[i] == s[i]);
        lema_filtros_iguais(s.drop_last(), p, q);
    }
}

/// Immediately after an add, lookup by the added record's name and by its
/// phone both return exactly that record, and it stands at the end of the
/// listing.
pub proof fn lema_adicionar_e_buscar(a: AgendaV, c: ContatoV)
    ensures
        apos_adicionar(a, c).nomes.contains_key(c.nome),
        apos_adicionar(a, c).nomes[c.nome] == c,
        apos_adicionar(a, c).telefones.contains_key(c.telefone),
        apos_adicionar(a, c).telefones[c.telefone] == c,
        apos_adicionar(a, c).lista == a.lista.push(c),
{
}

/// After a record is added and then removed by its name, lookups by that
/// name and by that record's phone both return absent.
pub proof fn lema_adicionar_e_remover(a: AgendaV, c: ContatoV)
    ensures
        !apos_remover_por_nome(apos_adicionar(a, c), c.nome).nomes.contains_key(c.nome),
        !apos_remover_por_nome(apos_adicionar(a, c), c.nome).telefones.contains_key(c.telefone),
{
}

/// Removing by name and removing by phone are one and the same operation
/// when they are applied to the two keys of one record that both indexes
/// hold, provided the record's name and phone single out the same entries of
/// the listing.
pub proof fn lema_remocoes_equivalentes(a: AgendaV, c: ContatoV)
    requires
        a.nomes.contains_key(c.nome),
        a.nomes[c.nome] == c,
        a.telefones.contains_key(c.telefone),
        a.telefones[c.telefone] == c,
        forall|i: int|
            0 <= i < a.lista.len() ==> ((#[trigger] a.lista[i]).nome == c.nome <==> a.lista[i].telefone
                == c.telefone),
    ensures
        apos_remover_por_nome(a, c.nome) == apos_remover_por_telefone(a, c.telefone),
{
    lema_filtros_iguais(a.lista, mantem_sel(false, c.nome), mantem_sel(true, c.telefone));
    assert(apos_remover_por_nome(a, c.nome) =~~= apos_remover_por_telefone(a, c.telefone));
}

/// Rebuilding a directory from a record list lists exactly those records,
/// in order.
pub proof fn lema_agenda_de_lista(l: Seq<ContatoV>)
    ensures
        agenda_de(l).lista == l,
    decreases l.len(),
{
    if l.len() == 0 {
        assert(agenda_de(l).lista =~= l);
    } else {
        lema_agenda_de_lista(l.drop_last());
        assert(agenda_de(l).lista =~= l);
    }
}

/// The persistence round trip at the directory level: a directory reopened
/// from its own saved text lists the same records, in order, when each
/// stored record survives the flat encoding.
pub proof fn lema_guardar_e_abrir(a: AgendaV)
    requires
        forall|i: int| 0 <= i < a.lista.len() ==> formato::codificavel(#[trigger] a.lista[i]),
    ensures
        agenda_de(formato::decodifica(formato::texto_de(a.lista))).lista == a.lista,
{
    formato::lema_ida_e_volta(a.lista);
    lema_agenda_de_lista(a.lista);
}

} // verus!
