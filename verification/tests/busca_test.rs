use agenda::{Agenda, App, Contato, Visualizacao};

fn agenda_com_dois() -> Agenda {
    let mut agenda = Agenda::novo();
    agenda.adicionar_contato(Contato {
        nome: "Ana Prado".to_string(),
        telefone: "111".to_string(),
        email: None,
        endereco: None,
    });
    agenda.adicionar_contato(Contato {
        nome: "Bruno".to_string(),
        telefone: "222".to_string(),
        email: None,
        endereco: None,
    });
    agenda
}

#[test]
fn pesquisa_ignora_maiusculas() {
    // An upper-case search text still finds the lower-case name: the search
    // folds both sides, so it fails if either side were left unfolded.
    let mut app = App::novo(agenda_com_dois());
    app.pesquisa = "ANA".to_string();
    let achados = app.pesquisar_contatos();
    assert_eq!(achados.len(), 1);
    assert_eq!(achados[0].nome, "Ana Prado");
}

#[test]
fn pesquisa_por_trecho_do_nome() {
    let mut app = App::novo(agenda_com_dois());
    app.pesquisa = "run".to_string();
    let achados = app.pesquisar_contatos();
    assert_eq!(achados.len(), 1);
    assert_eq!(achados[0].nome, "Bruno");
}

#[test]
fn pesquisa_sem_resultado() {
    let mut app = App::novo(agenda_com_dois());
    app.pesquisa = "zelia".to_string();
    assert!(app.pesquisar_contatos().is_empty());
}

#[test]
fn pesquisa_vazia_lista_todos() {
    let app = App::novo(agenda_com_dois());
    assert_eq!(app.pesquisar_contatos().len(), 2);
}

#[test]
fn formulario_adiciona_e_limpa() {
    let mut app = App::novo(Agenda::novo());
    app.nome = "Carla".to_string();
    app.telefone = "333".to_string();
    app.email = String::new();
    app.endereco = "Rua F 9".to_string();
    app.adicionar_contato();

    assert!(app.nome.is_empty());
    assert!(app.telefone.is_empty());
    assert!(app.email.is_empty());
    assert!(app.endereco.is_empty());

    let esperado = Contato {
        nome: "Carla".to_string(),
        telefone: "333".to_string(),
        email: None,
        endereco: Some("Rua F 9".to_string()),
    };
    assert_eq!(app.agenda.buscar_por_nome("Carla"), Some(&esperado));
    assert_eq!(app.agenda.buscar_por_telefone("333"), Some(&esperado));
    assert!(matches!(app.visualizacao, Visualizacao::Json));
}
