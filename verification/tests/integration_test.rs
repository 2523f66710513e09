use agenda::{Agenda, Contato};

#[test]
fn test_integration() {
    let mut agenda = Agenda::novo();
    let contato = Contato {
        nome: "Ana".to_string(),
        telefone: "666666666".to_string(),
        email: Some("ana@example.com".to_string()),
        endereco: Some("Rua B, 456".to_string()),
    };

    agenda.adicionar_contato(contato.clone());

    assert_eq!(agenda.buscar_por_nome("Ana"), Some(&contato));
    assert_eq!(agenda.buscar_por_telefone("666666666"), Some(&contato));

    agenda.remover_por_nome("Ana");
    assert!(agenda.buscar_por_nome("Ana").is_none());
    assert!(agenda.buscar_por_telefone("666666666").is_none());
}

#[test]
fn ciclo_completo_de_um_registro() {
    let mut agenda = Agenda::novo();
    let contato = Contato {
        nome: "Ana".to_string(),
        telefone: "666666666".to_string(),
        email: Some("ana@example.com".to_string()),
        endereco: Some("Rua B, 456".to_string()),
    };

    agenda.adicionar_contato(contato.clone());
    assert_eq!(agenda.buscar_por_nome("Ana"), Some(&contato));
    assert_eq!(agenda.buscar_por_telefone("666666666"), Some(&contato));

    let removido = agenda.remover_por_nome("Ana");
    assert_eq!(removido, Some(contato));
    assert!(agenda.buscar_por_nome("Ana").is_none());
    assert!(agenda.buscar_por_telefone("666666666").is_none());
    assert!(agenda.mostrar_todos_nomes().is_empty());
}

#[test]
fn agenda_nova_esta_vazia() {
    let agenda = Agenda::novo();
    assert!(agenda.mostrar_todos_nomes().is_empty());
}

#[test]
fn abrir_sem_armazenamento_da_agenda_vazia() {
    let agenda = Agenda::abrir(None);
    assert!(agenda.mostrar_todos_nomes().is_empty());
}

#[test]
fn remover_ausente_nao_muda_nada() {
    let mut agenda = Agenda::novo();
    let contato = Contato {
        nome: "Bruno".to_string(),
        telefone: "111".to_string(),
        email: None,
        endereco: None,
    };
    agenda.adicionar_contato(contato.clone());

    assert_eq!(agenda.remover_por_nome("Carla"), None);
    assert_eq!(agenda.remover_por_telefone("222"), None);
    assert_eq!(agenda.mostrar_todos_nomes(), vec![contato.clone()]);
    assert_eq!(agenda.buscar_por_nome("Bruno"), Some(&contato));
    assert_eq!(agenda.buscar_por_telefone("111"), Some(&contato));
}

#[test]
fn remover_por_telefone_remove_dos_dois_indices() {
    let mut agenda = Agenda::novo();
    let contato = Contato {
        nome: "Bruno".to_string(),
        telefone: "111".to_string(),
        email: None,
        endereco: None,
    };
    agenda.adicionar_contato(contato.clone());

    let removido = agenda.remover_por_telefone("111");
    assert_eq!(removido, Some(contato));
    assert!(agenda.buscar_por_nome("Bruno").is_none());
    assert!(agenda.buscar_por_telefone("111").is_none());
    assert!(agenda.mostrar_todos_nomes().is_empty());
}

#[test]
fn nome_repetido_fica_com_o_segundo_registro() {
    let mut agenda = Agenda::novo();
    let primeiro = Contato {
        nome: "Ana".to_string(),
        telefone: "111".to_string(),
        email: None,
        endereco: None,
    };
    let segundo = Contato {
        nome: "Ana".to_string(),
        telefone: "222".to_string(),
        email: None,
        endereco: None,
    };
    agenda.adicionar_contato(primeiro.clone());
    agenda.adicionar_contato(segundo.clone());

    // The name index keeps only the later record; both phones stay
    // independently resolvable; the listing keeps the earlier entry too.
    assert_eq!(agenda.buscar_por_nome("Ana"), Some(&segundo));
    assert_eq!(agenda.buscar_por_telefone("111"), Some(&primeiro));
    assert_eq!(agenda.buscar_por_telefone("222"), Some(&segundo));
    assert_eq!(agenda.mostrar_todos_nomes(), vec![primeiro, segundo]);
}

#[test]
fn remover_por_nome_e_por_telefone_equivalem() {
    let ana = Contato {
        nome: "Ana".to_string(),
        telefone: "111".to_string(),
        email: None,
        endereco: None,
    };
    let bruno = Contato {
        nome: "Bruno".to_string(),
        telefone: "222".to_string(),
        email: None,
        endereco: None,
    };

    let mut por_nome = Agenda::novo();
    por_nome.adicionar_contato(ana.clone());
    por_nome.adicionar_contato(bruno.clone());
    let mut por_telefone = Agenda::novo();
    por_telefone.adicionar_contato(ana.clone());
    por_telefone.adicionar_contato(bruno.clone());

    assert_eq!(por_nome.remover_por_nome("Ana"), Some(ana.clone()));
    assert_eq!(por_telefone.remover_por_telefone("111"), Some(ana));

    assert_eq!(por_nome.mostrar_todos_nomes(), por_telefone.mostrar_todos_nomes());
    assert!(por_nome.buscar_por_nome("Ana").is_none());
    assert!(por_telefone.buscar_por_nome("Ana").is_none());
    assert!(por_nome.buscar_por_telefone("111").is_none());
    assert!(por_telefone.buscar_por_telefone("111").is_none());
    assert_eq!(por_nome.buscar_por_nome("Bruno"), Some(&bruno));
    assert_eq!(por_telefone.buscar_por_nome("Bruno"), Some(&bruno));
}

#[test]
fn remover_nome_repetido_limpa_toda_a_lista() {
    // Removal by a name that two listing entries share drops both entries;
    // the phone index still holds the overwritten record's phone, the known
    // divergence between the indexes and the listing.
    let primeiro = Contato {
        nome: "Ana".to_string(),
        telefone: "111".to_string(),
        email: None,
        endereco: None,
    };
    let segundo = Contato {
        nome: "Ana".to_string(),
        telefone: "222".to_string(),
        email: None,
        endereco: None,
    };
    let mut agenda = Agenda::novo();
    agenda.adicionar_contato(primeiro.clone());
    agenda.adicionar_contato(segundo.clone());

    assert_eq!(agenda.remover_por_nome("Ana"), Some(segundo));
    assert!(agenda.mostrar_todos_nomes().is_empty());
    assert!(agenda.buscar_por_nome("Ana").is_none());
    assert!(agenda.buscar_por_telefone("222").is_none());
    assert_eq!(agenda.buscar_por_telefone("111"), Some(&primeiro));
}

#[test]
fn guardar_e_abrir_reconstroi_a_lista() {
    let mut agenda = Agenda::novo();
    let ana = Contato {
        nome: "Ana".to_string(),
        telefone: "666666666".to_string(),
        email: Some("ana@example.com".to_string()),
        endereco: None,
    };
    let bruno = Contato {
        nome: "Bruno".to_string(),
        telefone: "111".to_string(),
        email: None,
        endereco: Some("Rua C 7".to_string()),
    };
    agenda.adicionar_contato(ana.clone());
    agenda.adicionar_contato(bruno.clone());

    let texto = agenda.salvar();
    let reaberta = Agenda::abrir(Some(&texto));
    assert_eq!(reaberta.mostrar_todos_nomes(), vec![ana.clone(), bruno.clone()]);
    assert_eq!(reaberta.buscar_por_nome("Ana"), Some(&ana));
    assert_eq!(reaberta.buscar_por_telefone("111"), Some(&bruno));
}
