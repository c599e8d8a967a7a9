//! Catalogue des formats : de l'extension d'un chemin vers une etiquette
//! fermee de format d'entree ou de sortie. Une extension inconnue ne donne
//! rien ; la conversion se rabat alors sur une copie d'octets.
use vstd::prelude::*;

verus! {

/// Les formats reconnus en entree.
#[derive(Debug, Clone, Copy, PartialEq, Eq, Structural)]
pub enum FormatEntree {
    Docx,
    Csv,
    Dotx,
    Json,
    Log,
    Md,
    Odt,
    Typst,
    Yaml,
    Html,
    Tex,
    Rst,
    Pdf,
    Txt,
}

/// Les formats reconnus en sortie.
#[derive(Debug, Clone, Copy, PartialEq, Eq, Structural)]
pub enum FormatSortie {
    Docx,
    Html,
    Md,
    Odt,
    Tex,
    Plain,
    Pdf,
}

/// L'extension d'un chemin : ce qui suit le dernier point du dernier
/// composant, pourvu que ce point ne soit ni en tete du composant ni son
/// dernier caractere.
pub open spec fn extension_de(chemin: Seq<char>) -> Seq<char> {
    let nom = chemin.skip(apres_dernier(chemin, '/'));
    let p = apres_dernier(nom, '.');
    if p <= 1 || p >= nom.len() + 1 {
        Seq::empty()
    } else {
        nom.skip(p)
    }
}

/// L'indice qui suit la derniere occurrence de `c`, 0 si absent.
pub open spec fn apres_dernier(s: Seq<char>, c: char) -> int
    decreases s.len(),
{
    if s.len() == 0 {
        0
    } else if s[s.len() - 1] == c {
        s.len() as int
    } else {
        apres_dernier(s.drop_last(), c)
    }
}

pub proof fn lemma_apres_dernier(s: Seq<char>, c: char)
    ensures
        0 <= apres_dernier(s, c) <= s.len(),
    decreases s.len(),
{
    if s.len() > 0 && s[s.len() - 1] != c {
        lemma_apres_dernier(s.drop_last(), c);
    }
}

/// Les majuscules ASCII rabattues en minuscules.
pub open spec fn minuscules(s: Seq<char>) -> Seq<char> {
    s.map_values(|c: char| minuscule(c))
}

pub open spec fn minuscule(c: char) -> char {
    if 'A' <= c <= 'Z' {
        ((c as u8) + 32) as char
    } else {
        c
    }
}

/// Le format d'entree que designe une extension deja en minuscules.
pub open spec fn format_entree_de(ext: Seq<char>) -> Option<FormatEntree> {
    if ext == "docx"@ {
        Some(FormatEntree::Docx)
    } else if ext == "dotx"@ {
        Some(FormatEntree::Dotx)
    } else if ext == "csv"@ {
        Some(FormatEntree::Csv)
    } else if ext == "json"@ {
        Some(FormatEntree::Json)
    } else if ext == "log"@ {
        Some(FormatEntree::Log)
    } else if ext == "md"@ || ext == "markdown"@ {
        Some(FormatEntree::Md)
    } else if ext == "odt"@ {
        Some(FormatEntree::Odt)
    } else if ext == "typst"@ || ext == "typ"@ {
        Some(FormatEntree::Typst)
    } else if ext == "yaml"@ || ext == "yml"@ {
        Some(FormatEntree::Yaml)
    } else if ext == "html"@ || ext == "htm"@ {
        Some(FormatEntree::Html)
    } else if ext == "tex"@ {
        Some(FormatEntree::Tex)
    } else if ext == "rst"@ {
        Some(FormatEntree::Rst)
    } else if ext == "pdf"@ {
        Some(FormatEntree::Pdf)
    } else if ext == "txt"@ || ext == "text"@ || ext == "nfo"@ {
        Some(FormatEntree::Txt)
    } else {
        None
    }
}

/// Le format de sortie que designe une extension deja en minuscules.
pub open spec fn format_sortie_de(ext: Seq<char>) -> Option<FormatSortie> {
    if ext == "docx"@ {
        Some(FormatSortie::Docx)
    } else if ext == "html"@ || ext == "htm"@ {
        Some(FormatSortie::Html)
    } else if ext == "md"@ || ext == "markdown"@ {
        Some(FormatSortie::Md)
    } else if ext == "odt"@ {
        Some(FormatSortie::Odt)
    } else if ext == "tex"@ {
        Some(FormatSortie::Tex)
    } else if ext == "txt"@ {
        Some(FormatSortie::Plain)
    } else if ext == "pdf"@ {
        Some(FormatSortie::Pdf)
    } else {
        None
    }
}

/// L'extension d'un chemin, rabattue en minuscules ASCII.
#[verifier::loop_isolation(false)]
pub fn extension_minuscule(chemin: &str) -> (r: Vec<char>)
    ensures
        r@ == minuscules(extension_de(chemin@)),
{
    let n = chemin.unicode_len();
    let mut debut_nom: usize = n;
    proof {
        assert(chemin@.subrange(0, n as int) =~= chemin@);
    }
    while debut_nom > 0
        invariant
            0 <= debut_nom <= n == chemin@.len(),
            apres_dernier(chemin@, '/') == apres_dernier(chemin@.subrange(0, debut_nom as int), '/'),
        decreases debut_nom,
    {
        proof {
            assert(chemin@.subrange(0, debut_nom as int).drop_last() =~= chemin@.subrange(
                0,
                debut_nom as int - 1,
            ));
            assert(chemin@.subrange(0, debut_nom as int)[debut_nom - 1] == chemin@[debut_nom - 1]);
        }
        if chemin.get_char(debut_nom - 1) == '/' {
            break ;
        }
        debut_nom = debut_nom - 1;
    }
    proof {
        if debut_nom == 0 {
            assert(chemin@.subrange(0, 0).len() == 0);
        }
        assert(apres_dernier(chemin@, '/') == debut_nom as int);
        lemma_apres_dernier(chemin@, '/');
    }
    let ghost nom = chemin@.skip(debut_nom as int);
    let mut apres_point: usize = n;
    proof {
        assert(nom.subrange(0, n - debut_nom as int) =~= nom);
    }
    while apres_point > debut_nom
        invariant
            debut_nom <= apres_point <= n,
            apres_dernier(nom, '.') == apres_dernier(
                nom.subrange(0, apres_point - debut_nom as int),
                '.',
            ),
        decreases apres_point,
    {
        proof {
            assert(nom.subrange(0, apres_point - debut_nom as int).drop_last() =~= nom.subrange(
                0,
                apres_point - debut_nom as int - 1,
            ));
            assert(nom.subrange(0, apres_point - debut_nom as int)[apres_point - debut_nom - 1]
                == chemin@[apres_point - 1]);
        }
        if chemin.get_char(apres_point - 1) == '.' {
            break ;
        }
        apres_point = apres_point - 1;
    }
    proof {
        if apres_point == debut_nom {
            assert(nom.subrange(0, 0).len() == 0);
        }
        assert(apres_dernier(nom, '.') == apres_point - debut_nom as int);
    }
    let mut r: Vec<char> = Vec::new();
    if apres_point - debut_nom <= 1 || apres_point >= n {
        proof {
            assert(extension_de(chemin@) =~= Seq::<char>::empty());
            assert(r@ =~= minuscules(extension_de(chemin@)));
        }
        return r;
    }
    let mut i: usize = apres_point;
    while i < n
        invariant
            apres_point <= i <= n,
            nom == chemin@.skip(debut_nom as int),
            debut_nom + 1 < apres_point < n,
            r@ =~= minuscules(chemin@.subrange(apres_point as int, i as int)),
        decreases n - i,
    {
        let c = chemin.get_char(i);
        let minuscule_c = if 'A' <= c && c <= 'Z' {
            ((c as u8) + 32) as char
        } else {
            c
        };
        r.push(minuscule_c);
        proof {
            assert(minuscules(chemin@.subrange(apres_point as int, i as int)).push(
                minuscule(chemin@[i as int]),
            ) =~= minuscules(chemin@.subrange(apres_point as int, i + 1)));
        }
        i = i + 1;
    }
    proof {
        assert(extension_de(chemin@) =~= chemin@.subrange(apres_point as int, n as int));
    }
    r
}

/// Compare des caracteres a un litteral.
pub fn egale_chaine(a: &Vec<char>, b: &str) -> (r: bool)
    ensures
        r == (a@ == b@),
{
    let n = b.unicode_len();
    if a.len() != n {
        proof {
            assert(a@.len() != b@.len());
        }
        return false;
    }
    let mut i: usize = 0;
    while i < n
        invariant
            0 <= i <= n == b@.len() == a@.len(),
            forall|j: int| 0 <= j < i ==> (#[trigger] a@[j]) == b@[j],
        decreases n - i,
    {
        if a[i] != b.get_char(i) {
            return false;
        }
        i = i + 1;
    }
    proof {
        assert(a@ =~= b@);
    }
    true
}

/// Le format d'entree d'un chemin, d'apres son extension, sans egard a la
/// casse ASCII.
pub fn detecter_format_entree(chemin: &str) -> (r: Option<FormatEntree>)
    ensures
        r == format_entree_de(minuscules(extension_de(chemin@))),
{
    let ext = extension_minuscule(chemin);
    if egale_chaine(&ext, "docx") {
        Some(FormatEntree::Docx)
    } else if egale_chaine(&ext, "dotx") {
        Some(FormatEntree::Dotx)
    } else if egale_chaine(&ext, "csv") {
        Some(FormatEntree::Csv)
    } else if egale_chaine(&ext, "json") {
        Some(FormatEntree::Json)
    } else if egale_chaine(&ext, "log") {
        Some(FormatEntree::Log)
    } else if egale_chaine(&ext, "md") || egale_chaine(&ext, "markdown") {
        Some(FormatEntree::Md)
    } else if egale_chaine(&ext, "odt") {
        Some(FormatEntree::Odt)
    } else if egale_chaine(&ext, "typst") || egale_chaine(&ext, "typ") {
        Some(FormatEntree::Typst)
    } else if egale_chaine(&ext, "yaml") || egale_chaine(&ext, "yml") {
        Some(FormatEntree::Yaml)
    } else if egale_chaine(&ext, "html") || egale_chaine(&ext, "htm") {
        Some(FormatEntree::Html)
    } else if egale_chaine(&ext, "tex") {
        Some(FormatEntree::Tex)
    } else if egale_chaine(&ext, "rst") {
        Some(FormatEntree::Rst)
    } else if egale_chaine(&ext, "pdf") {
        Some(FormatEntree::Pdf)
    } else if egale_chaine(&ext, "txt") || egale_chaine(&ext, "text") || egale_chaine(
        &ext,
        "nfo",
    ) {
        Some(FormatEntree::Txt)
    } else {
        None
    }
}

/// Le format de sortie d'un chemin, d'apres son extension, sans egard a la
/// casse ASCII.
pub fn detecter_format_sortie(chemin: &str) -> (r: Option<FormatSortie>)
    ensures
        r == format_sortie_de(minuscules(extension_de(chemin@))),
{
    let ext = extension_minuscule(chemin);
    if egale_chaine(&ext, "docx") {
        Some(FormatSortie::Docx)
    } else if egale_chaine(&ext, "html") || egale_chaine(&ext, "htm") {
        Some(FormatSortie::Html)
    } else if egale_chaine(&ext, "md") || egale_chaine(&ext, "markdown") {
        Some(FormatSortie::Md)
    } else if egale_chaine(&ext, "odt") {
        Some(FormatSortie::Odt)
    } else if egale_chaine(&ext, "tex") {
        Some(FormatSortie::Tex)
    } else if egale_chaine(&ext, "txt") {
        Some(FormatSortie::Plain)
    } else if egale_chaine(&ext, "pdf") {
        Some(FormatSortie::Pdf)
    } else {
        None
    }
}

/// Le chemin designe-t-il un document natif, d'apres son extension ?
pub fn est_pdf(chemin: &str) -> (r: bool)
    ensures
        r == (minuscules(extension_de(chemin@)) == "pdf"@),
{
    let ext = extension_minuscule(chemin);
    egale_chaine(&ext, "pdf")
}

} // verus!

verus! {

/// La longueur de l'extension d'un chemin.
pub fn longueur_extension(chemin: &str) -> (r: usize)
    ensures
        r as int == extension_de(chemin@).len(),
        r as int <= chemin@.len(),
{
    proof {
        lemma_extension_bornee(chemin@);
    }
    let ext = extension_minuscule(chemin);
    ext.len()
}

/// L'extension n'est jamais plus longue que le chemin.
pub proof fn lemma_extension_bornee(chemin: Seq<char>)
    ensures
        extension_de(chemin).len() <= chemin.len(),
{
    lemma_apres_dernier(chemin, '/');
    let nom = chemin.skip(apres_dernier(chemin, '/'));
    lemma_apres_dernier(nom, '.');
}

} // verus!
