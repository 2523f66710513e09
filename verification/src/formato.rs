//! The flat-text encoding of the backing store: one record per line, the
//! four fields separated by commas, an absent optional field written as an
//! empty segment. A line that does not split into exactly four segments is
//! skipped on load, never an error.

use vstd::prelude::*;
use vstd::string::StrSliceExecFns;
use vstd::string::StringExecFns;
use crate::contatos::Contato;
use crate::contatos::ContatoV;

verus! {

/// The segments of `t` between occurrences of `sep`. The empty text gives
/// one empty segment; every separator ends the current segment and starts
/// the next, so splitting yields one segment more than there are separators.
pub open spec fn dividir(t: Seq<char>, sep: char) -> Seq<Seq<char>>
    decreases t.len(),
{
    if t.len() == 0 {
        seq![Seq::<char>::empty()]
    } else if t[0] == sep {
        seq![Seq::<char>::empty()] + dividir(t.drop_first(), sep)
    } else {
        let resto = dividir(t.drop_first(), sep);
        seq![seq![t[0]] + resto[0]] + resto.drop_first()
    }
}

/// Splitting always yields at least one segment.
pub proof fn lema_dividir_nao_vazio(t: Seq<char>, sep: char)
    ensures
        dividir(t, sep).len() >= 1,
    decreases t.len(),
{
    if t.len() == 0 {
    } else {
        lema_dividir_nao_vazio(t.drop_first(), sep);
    }
}

/// A text free of the separator is one single segment.
pub proof fn lema_dividir_sem_separador(t: Seq<char>, sep: char)
    requires
        !t.contains(sep),
    ensures
        dividir(t, sep) =~~= seq![t],
    decreases t.len(),
{
    if t.len() == 0 {
        assert(dividir(t, sep) =~~= seq![t]);
    } else {
        assert(t[0] != sep);
        assert forall|i: int| 0 <= i < t.drop_first().len() implies t.drop_first()[i] != sep by {
            assert(t.drop_first()[i] == t[i + 1]);
        }
        assert(!t.drop_first().contains(sep));
        lema_dividir_sem_separador(t.drop_first(), sep);
        let resto = dividir(t.drop_first(), sep);
        assert(seq![t[0]] + resto[0] =~= t);
        assert(dividir(t, sep) =~~= seq![t]);
    }
}

/// The first separator ends the first segment: splitting `a + sep + b`
/// where `a` is free of the separator gives `a` and then the split of `b`.
pub proof fn lema_dividir_com_separador(a: Seq<char>, b: Seq<char>, sep: char)
    requires
        !a.contains(sep),
    ensures
        dividir(a + seq![sep] + b, sep) =~~= seq![a] + dividir(b, sep),
    decreases a.len(),
{
    let t = a + seq![sep] + b;
    lema_dividir_nao_vazio(b, sep);
    if a.len() == 0 {
        assert(t[0] == sep);
        assert(t.drop_first() =~= b);
        assert(dividir(t, sep) =~~= seq![a] + dividir(b, sep));
    } else {
        assert(t[0] == a[0]);
        assert(a.contains(sep) <== a[0] == sep);
        assert forall|i: int| 0 <= i < a.drop_first().len() implies a.drop_first()[i] != sep by {
            assert(a.drop_first()[i] == a[i + 1]);
        }
        assert(!a.drop_first().contains(sep));
        assert(t.drop_first() =~= a.drop_first() + seq![sep] + b);
        lema_dividir_com_separador(a.drop_first(), b, sep);
        let resto = dividir(t.drop_first(), sep);
        assert(resto[0] == a.drop_first());
        assert(seq![t[0]] + resto[0] =~= a);
        assert(resto.drop_first() =~~= dividir(b, sep));
        assert(dividir(t, sep) =~~= seq![a] + dividir(b, sep));
    }
}

/// A concatenation of two texts free of a character is itself free of it.
pub proof fn lema_concatenar_sem(a: Seq<char>, b: Seq<char>, x: char)
    requires
        !a.contains(x),
        !b.contains(x),
    ensures
        !(a + b).contains(x),
{
    assert forall|i: int| 0 <= i < (a + b).len() implies (a + b)[i] != x by {
        if i < a.len() {
            assert((a + b)[i] == a[i]);
        } else {
            assert((a + b)[i] == b[i - a.len()]);
        }
    }
}

/// A single character other than `x` does not contain `x`.
pub proof fn lema_singular_sem(c: char, x: char)
    requires
        c != x,
    ensures
        !seq![c].contains(x),
{
    assert forall|i: int| 0 <= i < 1 implies seq![c][i] != x by {}
}

/// An empty segment reads back as an absent optional field; anything else
/// reads back as present.
pub open spec fn opcional(s: Seq<char>) -> Option<Seq<char>> {
    if s.len() == 0 {
        None
    } else {
        Some(s)
    }
}

/// An absent optional field is written as an empty segment.
pub open spec fn texto_opcional(o: Option<Seq<char>>) -> Seq<char> {
    match o {
        None => Seq::empty(),
        Some(s) => s,
    }
}

/// The stored line of one record: its four fields separated by commas,
/// without the final line break.
pub open spec fn linha_de(c: ContatoV) -> Seq<char> {
    c.nome + seq![','] + c.telefone + seq![','] + texto_opcional(c.email) + seq![',']
        + texto_opcional(c.endereco)
}

/// The whole store text of a record list: each record's line followed by a
/// line break.
pub open spec fn texto_de(l: Seq<ContatoV>) -> Seq<char>
    decreases l.len(),
{
    if l.len() == 0 {
        Seq::empty()
    } else {
        linha_de(l.first()) + seq!['\n'] + texto_de(l.drop_first())
    }
}

/// What one stored line encodes: a record when the line splits into exactly
/// four comma-separated segments, an empty optional segment giving an absent
/// field; nothing otherwise.
pub open spec fn registro_de_linha(l: Seq<char>) -> Option<ContatoV> {
    let partes = dividir(l, ',');
    if partes.len() == 4 {
        Some(
            ContatoV {
                nome: partes[0],
                telefone: partes[1],
                email: opcional(partes[2]),
                endereco: opcional(partes[3]),
            },
        )
    } else {
        None
    }
}

/// The records that a sequence of store lines encodes, in order, malformed
/// lines skipped.
pub open spec fn registros_de(linhas: Seq<Seq<char>>) -> Seq<ContatoV>
    decreases linhas.len(),
{
    if linhas.len() == 0 {
        Seq::empty()
    } else {
        let resto = registros_de(linhas.drop_first());
        match registro_de_linha(linhas.first()) {
            Some(c) => seq![c] + resto,
            None => resto,
        }
    }
}

/// The records that a whole store text encodes.
pub open spec fn decodifica(t: Seq<char>) -> Seq<ContatoV> {
    registros_de(dividir(t, '\n'))
}

/// Whether a text field passes through the flat encoding unchanged: it holds
/// neither the field separator nor a line break.
pub open spec fn sem_separadores(s: Seq<char>) -> bool {
    !s.contains(',') && !s.contains('\n')
}

/// Whether an optional field survives the round trip: an absent field always
/// does; a present one must be non-empty (an empty segment reads back as
/// absent) and free of separators.
pub open spec fn opcional_codificavel(o: Option<Seq<char>>) -> bool {
    match o {
        None => true,
        Some(s) => s.len() > 0 && sem_separadores(s),
    }
}

/// Whether a record survives the round trip through the flat encoding.
pub open spec fn codificavel(c: ContatoV) -> bool {
    &&& sem_separadores(c.nome)
    &&& sem_separadores(c.telefone)
    &&& opcional_codificavel(c.email)
    &&& opcional_codificavel(c.endereco)
}

/// Splits `t` at every occurrence of `sep`, keeping empty segments.
pub fn dividir_texto(t: &str, sep: char) -> (r: Vec<String>)
    ensures
        r.deep_view() == dividir(t@, sep),
{
    let n = t.unicode_len();
    let mut r: Vec<String> = Vec::new();
    let mut inicio: usize = 0;
    let mut i: usize = 0;
    proof {
        assert(t@.subrange(0, n as int) =~= t@);
        assert(r.deep_view() =~~= Seq::<Seq<char>>::empty());
        assert(dividir(t@, sep) =~~= r.deep_view() + dividir(t@, sep));
    }
    while i < n
        invariant
            0 <= inicio <= i <= n,
            n == t@.len(),
            !t@.subrange(inicio as int, i as int).contains(sep),
            dividir(t@, sep) =~~= r.deep_view() + dividir(
                t@.subrange(inicio as int, n as int),
                sep,
            ),
        decreases n - i,
    {
        let c = t.get_char(i);
        if c == sep {
            let seg = t.substring_char(inicio, i);
            let ghost antes = r.deep_view();
            r.push(seg.to_owned());
            proof {
                let frente = t@.subrange(inicio as int, i as int);
                let tras = t@.subrange(i as int + 1, n as int);
                assert(t@.subrange(inicio as int, n as int) =~= frente + seq![sep] + tras);
                lema_dividir_com_separador(frente, tras, sep);
                assert(r.deep_view() =~~= antes + seq![frente]);
                assert(dividir(t@, sep) =~~= r.deep_view() + dividir(tras, sep));
                assert(t@.subrange(i as int + 1, i as int + 1) =~= Seq::<char>::empty());
            }
            inicio = i + 1;
        } else {
            proof {
                let alongado = t@.subrange(inicio as int, i as int + 1);
                assert(alongado =~= t@.subrange(inicio as int, i as int) + seq![t@[i as int]]);
                lema_singular_sem(t@[i as int], sep);
                lema_concatenar_sem(t@.subrange(inicio as int, i as int), seq![t@[i as int]], sep);
            }
        }
        i = i + 1;
    }
    let seg = t.substring_char(inicio, n);
    let ghost antes = r.deep_view();
    r.push(seg.to_owned());
    proof {
        lema_dividir_sem_separador(t@.subrange(inicio as int, n as int), sep);
        assert(r.deep_view() =~~= antes + seq![t@.subrange(inicio as int, n as int)]);
        assert(r.deep_view() =~~= dividir(t@, sep));
    }
    r
}

/// Appends an optional field's text: its value when present, nothing when
/// absent.
fn anexar_opcional(destino: &mut String, campo: &Option<String>)
    ensures
        final(destino)@ == old(destino)@ + texto_opcional(campo.deep_view()),
{
    match campo {
        Option::None => {
            proof {
                assert(destino@ =~= destino@ + Seq::<char>::empty());
            }
        },
        Option::Some(s) => {
            destino.append(s.as_str());
        },
    }
}

/// Writes one record as its stored line, without the final line break.
pub fn codificar_linha(contato: &Contato) -> (r: String)
    ensures
        r@ == linha_de(contato@),
{
    let mut linha = String::new();
    linha.append(contato.nome.as_str());
    linha.append(",");
    linha.append(contato.telefone.as_str());
    linha.append(",");
    anexar_opcional(&mut linha, &contato.email);
    linha.append(",");
    anexar_opcional(&mut linha, &contato.endereco);
    proof {
        reveal_strlit(",");
        assert(","@ =~= seq![',']);
        assert(linha@ =~= linha_de(contato@));
    }
    linha
}

/// Writes a whole record list as the store's text: one line per record, each
/// ended by a line break.
pub fn codificar(lista: &Vec<Contato>) -> (r: String)
    ensures
        r@ == texto_de(lista.deep_view()),
{
    let ghost todos = lista.deep_view();
    let mut r = String::new();
    let mut i: usize = 0;
    proof {
        assert(todos.subrange(0, todos.len() as int) =~= todos);
        assert(r@ =~= Seq::<char>::empty());
    }
    while i < lista.len()
        invariant
            0 <= i <= lista.len(),
            todos == lista.deep_view(),
            todos.len() == lista.len(),
            texto_de(todos) =~= r@ + texto_de(todos.subrange(i as int, todos.len() as int)),
        decreases lista.len() - i,
    {
        let ghost r_antes = r@;
        let linha = codificar_linha(&lista[i]);
        r.append(linha.as_str());
        r.append("\n");
        proof {
            reveal_strlit("\n");
            assert("\n"@ =~= seq!['\n']);
            let sufixo = todos.subrange(i as int, todos.len() as int);
            assert(sufixo.first() == todos[i as int]);
            assert(sufixo.drop_first() =~= todos.subrange(i as int + 1, todos.len() as int));
            assert(texto_de(sufixo) == linha_de(todos[i as int]) + seq!['\n'] + texto_de(
                sufixo.drop_first(),
            ));
            assert(r@ =~= r_antes + linha_de(todos[i as int]) + seq!['\n']);
            assert(texto_de(todos) =~= r@ + texto_de(sufixo.drop_first()));
        }
        i = i + 1;
    }
    proof {
        assert(todos.subrange(todos.len() as int, todos.len() as int) =~= Seq::<ContatoV>::empty());
        assert(r@ =~= texto_de(todos));
    }
    r
}

/// Reads a whole store text back into records: splits it into lines, decodes
/// each line of exactly four segments, and skips malformed lines.
pub fn decodificar(t: &str) -> (r: Vec<Contato>)
    ensures
        r.deep_view() == decodifica(t@),
{
    let linhas = dividir_texto(t, '\n');
    let ghost todas = linhas.deep_view();
    let mut r: Vec<Contato> = Vec::new();
    let mut i: usize = 0;
    proof {
        assert(todas.subrange(0, todas.len() as int) =~= todas);
        assert(r.deep_view() =~~= Seq::<ContatoV>::empty());
        assert(registros_de(todas) =~~= r.deep_view() + registros_de(todas));
    }
    while i < linhas.len()
        invariant
            0 <= i <= linhas.len(),
            todas == linhas.deep_view(),
            todas.len() == linhas.len(),
            registros_de(todas) =~~= r.deep_view() + registros_de(
                todas.subrange(i as int, todas.len() as int),
            ),
        decreases linhas.len() - i,
    {
        let ghost antes = r.deep_view();
        let ghost sufixo = todas.subrange(i as int, todas.len() as int);
        proof {
            assert(sufixo.first() == todas[i as int]);
            assert(sufixo.drop_first() =~= todas.subrange(i as int + 1, todas.len() as int));
            assert(linhas[i as int].deep_view() == todas[i as int]);
        }
        let partes = dividir_texto(linhas[i].as_str(), ',');
        if partes.len() == 4 {
            let contato = Contato {
                nome: partes[0].clone(),
                telefone: partes[1].clone(),
                email: if partes[2].as_str().is_empty() {
                    Option::None
                } else {
                    Option::Some(partes[2].clone())
                },
                endereco: if partes[3].as_str().is_empty() {
                    Option::None
                } else {
                    Option::Some(partes[3].clone())
                },
            };
            proof {
                assert(partes.deep_view()[0] == partes[0]@);
                assert(partes.deep_view()[1] == partes[1]@);
                assert(partes.deep_view()[2] == partes[2]@);
                assert(partes.deep_view()[3] == partes[3]@);
                assert(registro_de_linha(todas[i as int]) == Some(contato@));
            }
            r.push(contato);
            proof {
                assert(r.deep_view() =~~= antes + seq![
                    registro_de_linha(todas[i as int])->Some_0,
                ]);
            }
        } else {
            proof {
                assert(registro_de_linha(todas[i as int]) is None);
            }
        }
        proof {
            assert(registros_de(todas) =~~= r.deep_view() + registros_de(sufixo.drop_first()));
        }
        i = i + 1;
    }
    proof {
        assert(todas.subrange(todas.len() as int, todas.len() as int) =~= Seq::<Seq<char>>::empty());
        assert(r.deep_view() =~~= registros_de(todas));
    }
    r
}

/// The stored line of a record that survives the round trip holds no line
/// break.
pub proof fn lema_linha_sem_quebra(c: ContatoV)
    requires
        codificavel(c),
    ensures
        !linha_de(c).contains('\n'),
{
    lema_singular_sem(',', '\n');
    assert(!texto_opcional(c.email).contains('\n'));
    assert(!texto_opcional(c.endereco).contains('\n'));
    lema_concatenar_sem(c.nome, seq![','], '\n');
    lema_concatenar_sem(c.nome + seq![','], c.telefone, '\n');
    lema_concatenar_sem(c.nome + seq![','] + c.telefone, seq![','], '\n');
    lema_concatenar_sem(c.nome + seq![','] + c.telefone + seq![','], texto_opcional(c.email), '\n');
    lema_concatenar_sem(
        c.nome + seq![','] + c.telefone + seq![','] + texto_opcional(c.email),
        seq![','],
        '\n',
    );
    lema_concatenar_sem(
        c.nome + seq![','] + c.telefone + seq![','] + texto_opcional(c.email) + seq![','],
        texto_opcional(c.endereco),
        '\n',
    );
}

/// A record that survives the round trip reads back, alone, from its own
/// stored line: an absent optional field comes back absent, never as an
/// empty text.
pub proof fn lema_linha_ida_e_volta(c: ContatoV)
    requires
        codificavel(c),
    ensures
        registro_de_linha(linha_de(c)) == Some(c),
{
    let n = c.nome;
    let t = c.telefone;
    let e = texto_opcional(c.email);
    let d = texto_opcional(c.endereco);
    assert(!e.contains(','));
    assert(!d.contains(','));
    assert(linha_de(c) =~= n + seq![','] + (t + seq![','] + (e + seq![','] + d)));
    lema_dividir_com_separador(n, t + seq![','] + (e + seq![','] + d), ',');
    lema_dividir_com_separador(t, e + seq![','] + d, ',');
    lema_dividir_com_separador(e, d, ',');
    lema_dividir_sem_separador(d, ',');
    assert(dividir(linha_de(c), ',') =~~= seq![n, t, e, d]);
    assert(opcional(e) == c.email);
    assert(opcional(d) == c.endereco);
}

/// One store line decodes ahead of the rest of the store: a line of four
/// segments contributes its record, and a malformed line is skipped and
/// contributes nothing.
pub proof fn lema_primeira_linha(linha: Seq<char>, resto: Seq<char>)
    requires
        !linha.contains('\n'),
    ensures
        decodifica(linha + seq!['\n'] + resto) == match registro_de_linha(linha) {
            Some(c) => seq![c] + decodifica(resto),
            None => decodifica(resto),
        },
{
    lema_dividir_com_separador(linha, resto, '\n');
    let linhas = seq![linha] + dividir(resto, '\n');
    lema_dividir_nao_vazio(resto, '\n');
    assert(linhas.first() == linha);
    assert(linhas.drop_first() =~~= dividir(resto, '\n'));
    assert(registros_de(linhas) == match registro_de_linha(linha) {
        Some(c) => seq![c] + registros_de(dividir(resto, '\n')),
        None => registros_de(dividir(resto, '\n')),
    });
}

/// A line of four segments whose optional segment is empty reads back with
/// that field absent, not as an empty text.
pub proof fn lema_segmento_vazio_ausente(l: Seq<char>)
    requires
        dividir(l, ',').len() == 4,
    ensures
        registro_de_linha(l) is Some,
        registro_de_linha(l)->Some_0.email is None <==> dividir(l, ',')[2].len() == 0,
        registro_de_linha(l)->Some_0.endereco is None <==> dividir(l, ',')[3].len() == 0,
{
}

/// The persistence round trip: a store text written from records that
/// survive the encoding reads back to exactly those records, in order.
pub proof fn lema_ida_e_volta(l: Seq<ContatoV>)
    requires
        forall|i: int| 0 <= i < l.len() ==> codificavel(#[trigger] l[i]),
    ensures
        decodifica(texto_de(l)) == l,
    decreases l.len(),
{
    if l.len() == 0 {
        assert(texto_de(l) == Seq::<char>::empty());
        assert(dividir(Seq::<char>::empty(), '\n') == seq![Seq::<char>::empty()]);
        let vazias = seq![Seq::<char>::empty()];
        assert(dividir(Seq::<char>::empty(), ',') == seq![Seq::<char>::empty()]);
        assert(registro_de_linha(vazias.first()) is None);
        assert(vazias.drop_first() =~~= Seq::<Seq<char>>::empty());
        assert(registros_de(Seq::<Seq<char>>::empty()) == Seq::<ContatoV>::empty());
        assert(registros_de(vazias) =~~= Seq::<ContatoV>::empty());
        assert(decodifica(texto_de(l)) =~~= l);
    } else {
        let c = l.first();
        assert(codificavel(c));
        lema_linha_sem_quebra(c);
        lema_primeira_linha(linha_de(c), texto_de(l.drop_first()));
        lema_linha_ida_e_volta(c);
        assert(forall|i: int|
            0 <= i < l.drop_first().len() ==> codificavel(#[trigger] l.drop_first()[i]));
        lema_ida_e_volta(l.drop_first());
        assert(texto_de(l) == linha_de(c) + seq!['\n'] + texto_de(l.drop_first()));
        assert(decodifica(texto_de(l)) == seq![c] + decodifica(texto_de(l.drop_first())));
        assert(seq![c] + l.drop_first() =~= l);
        assert(decodifica(texto_de(l)) =~~= l);
    }
}

} // verus!
