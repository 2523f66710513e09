use agenda::formato::{codificar, codificar_linha, decodificar, dividir_texto};
use agenda::Contato;

#[test]
fn linha_codificada_exata() {
    let contato = Contato {
        nome: "Ana".to_string(),
        telefone: "666666666".to_string(),
        email: Some("ana@example.com".to_string()),
        endereco: None,
    };
    assert_eq!(codificar_linha(&contato), "Ana,666666666,ana@example.com,");
}

#[test]
fn texto_codificado_exato() {
    let lista = vec![
        Contato {
            nome: "Ana".to_string(),
            telefone: "1".to_string(),
            email: None,
            endereco: None,
        },
        Contato {
            nome: "Bruno".to_string(),
            telefone: "2".to_string(),
            email: Some("b@c".to_string()),
            endereco: Some("Rua D".to_string()),
        },
    ];
    assert_eq!(codificar(&lista), "Ana,1,,\nBruno,2,b@c,Rua D\n");
}

#[test]
fn campo_vazio_volta_como_ausente() {
    let registros = decodificar("Ana,1,,\n");
    assert_eq!(registros.len(), 1);
    assert_eq!(registros[0].nome, "Ana");
    assert_eq!(registros[0].telefone, "1");
    assert_eq!(registros[0].email, None);
    assert_eq!(registros[0].endereco, None);
}

#[test]
fn linha_malformada_e_ignorada() {
    // Two segments, then five, then a well-formed line: only the last loads.
    let registros = decodificar("a,b\nx,y,z,w,v\nAna,1,a@b,Rua E\n");
    assert_eq!(
        registros,
        vec![Contato {
            nome: "Ana".to_string(),
            telefone: "1".to_string(),
            email: Some("a@b".to_string()),
            endereco: Some("Rua E".to_string()),
        }]
    );
}

#[test]
fn texto_vazio_decodifica_para_nada() {
    assert!(decodificar("").is_empty());
}

#[test]
fn linha_sem_quebra_final_ainda_carrega() {
    let registros = decodificar("Ana,1,,");
    assert_eq!(registros.len(), 1);
    assert_eq!(registros[0].nome, "Ana");
}

#[test]
fn ida_e_volta_pelo_texto() {
    let lista = vec![
        Contato {
            nome: "Ana".to_string(),
            telefone: "666666666".to_string(),
            email: Some("ana@example.com".to_string()),
            endereco: None,
        },
        Contato {
            nome: "Bruno".to_string(),
            telefone: "111".to_string(),
            email: None,
            endereco: Some("Rua C 7".to_string()),
        },
    ];
    assert_eq!(decodificar(&codificar(&lista)), lista);
}

#[test]
fn campo_com_virgula_quebra_a_linha_no_carregamento() {
    // A field holding the separator does not survive the flat encoding: its
    // line gains a fifth segment and is skipped on load.
    let lista = vec![Contato {
        nome: "Ana".to_string(),
        telefone: "1".to_string(),
        email: None,
        endereco: Some("Rua B, 456".to_string()),
    }];
    assert_eq!(codificar(&lista), "Ana,1,,Rua B, 456\n");
    assert!(decodificar(&codificar(&lista)).is_empty());
}

#[test]
fn dividir_texto_mantem_segmentos_vazios() {
    let partes = dividir_texto("a,,b,", ',');
    assert_eq!(partes, vec!["a", "", "b", ""]);
}
