use gestion_temps::decimal::parse_hours;
use gestion_temps::text::chars_of;
use gestion_temps::{
    calculer_duree, format_duree_en_heures, parser_donnees_clientele, parser_donnees_hors_clientele,
    DailyTotals, Day, GestionTempsApp, Section,
};

const HOUR: i128 = 360_000;

fn day(year: i32, month: u32, d: u32) -> Day {
    Day { year, month, day: d }
}

fn hours(text: &str) -> Option<i64> {
    parse_hours(&chars_of(text))
}

fn run(off: &str, on: &str) -> GestionTempsApp {
    let mut app = GestionTempsApp::new();
    app.donnees_hors_clientele = off.to_string();
    app.donnees_clientele = on.to_string();
    app.calculer_resultats();
    app
}

#[test]
fn duration_is_difference_in_hours() {
    assert_eq!(calculer_duree("10/06/2025 08:00", "10/06/2025 10:00"), 720_000);
    assert_eq!(calculer_duree("10/06/2025 08:00", "10/06/2025 08:45"), 270_000);
    assert_eq!(calculer_duree("31/12/2024 23:30", "01/01/2025 00:15"), 270_000);
    assert_eq!(calculer_duree("28/02/2024 12:00", "01/03/2024 12:00"), 48 * 360_000);
    assert_eq!(calculer_duree("28/02/2023 12:00", "01/03/2023 12:00"), 24 * 360_000);
}

#[test]
fn duration_negative_when_end_first() {
    assert_eq!(calculer_duree("10/06/2025 10:00", "10/06/2025 08:00"), -720_000);
}

#[test]
fn duration_empty_or_unreadable_is_zero() {
    assert_eq!(calculer_duree("", "10/06/2025 10:00"), 0);
    assert_eq!(calculer_duree("10/06/2025 10:00", ""), 0);
    assert_eq!(calculer_duree("", ""), 0);
    assert_eq!(calculer_duree("hier", "10/06/2025 10:00"), 0);
    assert_eq!(calculer_duree("2025-06-10 08:00", "10/06/2025 10:00"), 0);
}

#[test]
fn comma_and_period_read_alike() {
    assert_eq!(hours("1,3"), Some(468_000));
    assert_eq!(hours("1.3"), Some(468_000));
    assert_eq!(hours("0,6"), hours("0.6"));
    assert_eq!(hours("8,05"), Some(2_898_000));
    assert_eq!(hours("-1,5"), Some(-540_000));
    assert_eq!(hours("+2"), Some(720_000));
    assert_eq!(hours(",5"), Some(180_000));
    assert_eq!(hours("3,"), Some(1_080_000));
    assert_eq!(hours("0,12345"), Some(44_424));
}

#[test]
fn malformed_numbers_are_rejected() {
    assert_eq!(hours(""), None);
    assert_eq!(hours("-"), None);
    assert_eq!(hours(","), None);
    assert_eq!(hours("1,3,4"), None);
    assert_eq!(hours("abc"), None);
    assert_eq!(hours("1 ,3"), None);
    assert_eq!(hours("1000000000000"), None);
    assert_eq!(hours("999999999999"), Some(999_999_999_999 * 360_000));
}

#[test]
fn hours_minutes_text() {
    assert_eq!(format_duree_en_heures(900_000), "02h30");
    assert_eq!(format_duree_en_heures(0), "00h00");
    assert_eq!(format_duree_en_heures(3_150_000), "08h45");
    assert_eq!(format_duree_en_heures(100 * HOUR), "100h00");
    assert_eq!(format_duree_en_heures(5_999), "00h00");
    assert_eq!(format_duree_en_heures(-HOUR), "00h00");
}

#[test]
fn scenario_single_lines() {
    let app = run(
        "X\tRévision véhicule\t10/06/2025 08:00\t10/06/2025 10:00",
        "WO-1\tC\tD\tClôturé\t...\t...\t-\t-\t10/06/2025 09:00\t...\t-\t-\t-\t-\t1,3\t0,6",
    );
    let r = app.resultat.as_ref().unwrap();
    assert_eq!(r.hors_clientele, 2 * HOUR);
    assert_eq!(r.travail_clientele, 468_000);
    assert_eq!(r.deplacement, 216_000);
    assert_eq!(r.details_hors_clientele.len(), 1);
    assert_eq!(r.details_hors_clientele[0].description, "Révision véhicule");
    assert_eq!(r.details_hors_clientele[0].debut.as_deref(), Some("10/06/2025 08:00"));
    assert_eq!(r.details_hors_clientele[0].fin.as_deref(), Some("10/06/2025 10:00"));
    assert_eq!(app.status_message, "Calculs terminés avec succès !");
    assert_eq!(app.temps_par_jour.get(day(2025, 6, 10)), Some(2 * HOUR + 468_000 + 216_000));
    assert_eq!(app.temps_par_jour.len(), 1);
}

#[test]
fn scenario_mixed_lines() {
    let off = "A\tRéunion\t10/06/2025 08:00\t10/06/2025 09:30\n\
               B\tPause déjeuner\t10/06/2025 12:00\t10/06/2025 13:00\n\
               C\tFormation\t2025-06-11 08:00\t11/06/2025 10:00\n\
               D\tTrop court\t10/06/2025 14:00\n\
               \n\
               E\tAtelier\t11/06/2025 13:00:00\t11/06/2025 14:00\n\
               F\tRangement\t12/06/2025 16:00\t12/06/2025 17:15\n";
    let on = "Description\tClient\n\
              ABS\tCongé\t-\t-\t-\t-\t-\t-\t10/06/2025\t-\t8\t0\n\
              WO-1\tC\tD\tE\t-\t-\t-\t-\t10/06/2025 09:00\t-\t1,5\t0,5\n\
              WO-2\tC\tD\tE\t-\t-\t-\t-\t2025-06-11\t-\t2\t0,25\n\
              WO-3\tC\tD\n\
              WO-4\tC\tD\tE\t-\t-\t-\t-\t12-06-2025\t-\t0,75\tx\n\
              WO-5\tC\tD\tE\t-\t-\t-\t-\t13.06.2025\t-\t1\t1\n\
              WO-6\tC\tD\tE\t-\t-\t-\t-\tbientôt\t-\t3\t2\n";
    let app = run(off, on);
    let r = app.resultat.as_ref().unwrap();
    // Réunion 1h30, Formation 0 (start unreadable), Atelier 0 (start has seconds), Rangement 1h15.
    assert_eq!(r.details_hors_clientele.len(), 4);
    assert_eq!(r.hors_clientele, 540_000 + 450_000);
    assert_eq!(r.details_hors_clientele[1].duree, 0);
    assert_eq!(r.travail_clientele, 540_000 + 720_000 + 270_000 + 360_000 + 1_080_000);
    assert_eq!(r.deplacement, 180_000 + 90_000 + 360_000 + 720_000);
    let sum: i128 = r.details_hors_clientele.iter().map(|e| e.duree as i128).sum();
    assert_eq!(r.hors_clientele, sum);
    assert_eq!(app.temps_par_jour.get(day(2025, 6, 10)), Some(540_000 + 540_000 + 180_000));
    assert_eq!(app.temps_par_jour.get(day(2025, 6, 11)), Some(720_000 + 90_000));
    assert_eq!(app.temps_par_jour.get(day(2025, 6, 12)), Some(450_000 + 270_000));
    assert_eq!(app.temps_par_jour.get(day(2025, 6, 13)), Some(720_000));
    assert_eq!(app.temps_par_jour.len(), 4);
}

#[test]
fn lunch_break_excluded_in_any_case() {
    let app = run(
        "A\tPAUSE DÉJEUNER\t10/06/2025 12:00\t10/06/2025 13:00\n\
         B\tlongue pause déjeuner client\t11/06/2025 12:00\t11/06/2025 13:00\n\
         C\tPause café\t12/06/2025 10:00\t12/06/2025 10:15",
        "",
    );
    let r = app.resultat.as_ref().unwrap();
    assert_eq!(r.details_hors_clientele.len(), 1);
    assert_eq!(r.details_hors_clientele[0].description, "Pause café");
    assert_eq!(r.hors_clientele, 90_000);
    assert_eq!(app.temps_par_jour.get(day(2025, 6, 10)), None);
    assert_eq!(app.temps_par_jour.get(day(2025, 6, 11)), None);
    assert_eq!(app.temps_par_jour.len(), 1);
}

#[test]
fn short_lines_do_not_affect_others() {
    let with_short = run(
        "A\tRéunion\t10/06/2025 08:00\t10/06/2025 09:00\nB\tseul\t10/06/2025 09:00\n",
        "WO-1\tC\t-\t-\t1\nWO-2\tC\tD\tE\t-\t-\t-\t-\t10.06.2025\t-\t1\t0,5",
    );
    let without = run(
        "A\tRéunion\t10/06/2025 08:00\t10/06/2025 09:00\n",
        "WO-2\tC\tD\tE\t-\t-\t-\t-\t10.06.2025\t-\t1\t0,5",
    );
    let a = with_short.resultat.as_ref().unwrap();
    let b = without.resultat.as_ref().unwrap();
    assert_eq!(a.hors_clientele, b.hors_clientele);
    assert_eq!(a.travail_clientele, b.travail_clientele);
    assert_eq!(a.deplacement, b.deplacement);
    assert_eq!(a.details_hors_clientele.len(), b.details_hors_clientele.len());
    assert_eq!(with_short.temps_par_jour.entries(), without.temps_par_jour.entries());
    assert_eq!(a.travail_clientele, HOUR);
    assert_eq!(a.deplacement, 180_000);
}

#[test]
fn on_client_line_with_six_fields_counts_without_day() {
    let app = run("", "WO-1\tC\tD\tE\t2\t1");
    let r = app.resultat.as_ref().unwrap();
    assert_eq!(r.travail_clientele, 2 * HOUR);
    assert_eq!(r.deplacement, HOUR);
    assert!(app.temps_par_jour.is_empty());
}

#[test]
fn unreadable_value_drops_only_that_field() {
    let app = run("", "WO-1\tC\tD\tE\t-\t-\t-\t-\t10.06.2025\t-\tn/a\t0,5");
    let r = app.resultat.as_ref().unwrap();
    assert_eq!(r.travail_clientele, 0);
    assert_eq!(r.deplacement, 180_000);
    assert_eq!(app.temps_par_jour.get(day(2025, 6, 10)), Some(180_000));
}

#[test]
fn unreadable_values_leave_no_day() {
    let app = run("", "WO-1\tC\tD\tE\t-\t-\t-\t-\t10.06.2025\t-\tn/a\t?");
    assert!(app.temps_par_jour.is_empty());
}

#[test]
fn new_pass_replaces_days() {
    let mut app = run("A\tRéunion\t10/06/2025 08:00\t10/06/2025 09:00", "");
    assert_eq!(app.temps_par_jour.get(day(2025, 6, 10)), Some(HOUR));
    app.donnees_hors_clientele = "A\tRéunion\t11/06/2025 08:00\t11/06/2025 09:30".to_string();
    app.calculer_resultats();
    assert_eq!(app.temps_par_jour.get(day(2025, 6, 10)), None);
    assert_eq!(app.temps_par_jour.get(day(2025, 6, 11)), Some(540_000));
    assert_eq!(app.temps_par_jour.len(), 1);
    app.calculer_resultats();
    assert_eq!(app.temps_par_jour.get(day(2025, 6, 11)), Some(540_000));
    assert_eq!(app.resultat.as_ref().unwrap().hors_clientele, 540_000);
}

#[test]
fn clearing_forgets_everything() {
    let mut app = run("A\tRéunion\t10/06/2025 08:00\t10/06/2025 09:00", "");
    app.effacer();
    assert!(app.resultat.is_none());
    assert!(app.status_message.is_empty());
    assert!(app.donnees_hors_clientele.is_empty());
    assert!(app.temps_par_jour.is_empty());
}

#[test]
fn parsers_fill_shared_days() {
    let mut jours = DailyTotals::new();
    let entries = parser_donnees_hors_clientele(
        "  A\tRéunion\t 10/06/2025 08:00 \t10/06/2025 09:00  \r\n",
        &mut jours,
    );
    assert_eq!(entries.len(), 1);
    assert_eq!(entries[0].debut.as_deref(), Some("10/06/2025 08:00"));
    assert_eq!(entries[0].duree, 360_000);
    let (travail, deplacement) =
        parser_donnees_clientele("WO\tC\tD\tE\t-\t-\t-\t-\t10.06.2025\t-\t0,5\t0,25\r\n", &mut jours);
    assert_eq!(travail, 180_000);
    assert_eq!(deplacement, 90_000);
    assert_eq!(jours.get(day(2025, 6, 10)), Some(360_000 + 180_000 + 90_000));
}

#[test]
fn off_client_day_formats() {
    let app = run(
        "A\tX\t10/06/2025 08:00:00\t10/06/2025 09:00\n\
         B\tY\t2025-06-11 08:00\t11/06/2025 09:00\n\
         C\tZ\t12/06/2025 08:00\t12/06/2025 09:00",
        "",
    );
    assert_eq!(app.temps_par_jour.get(day(2025, 6, 10)), Some(0));
    assert_eq!(app.temps_par_jour.get(day(2025, 6, 11)), Some(0));
    assert_eq!(app.temps_par_jour.get(day(2025, 6, 12)), Some(HOUR));
}

fn resultat(h: i128, t: i128, d: i128) -> gestion_temps::ResultatCalcul {
    gestion_temps::ResultatCalcul {
        hors_clientele: h,
        travail_clientele: t,
        deplacement: d,
        details_hors_clientele: Vec::new(),
    }
}

fn section(categorie: usize, debut: i128, valeur: i128) -> Section {
    Section { categorie, debut, valeur }
}

#[test]
fn chart_sections_follow_shares() {
    assert_eq!(
        resultat(720_000, 468_000, 216_000).sections_camembert(),
        vec![section(0, 0, 720_000), section(1, 720_000, 468_000), section(2, 1_188_000, 216_000)]
    );
}

#[test]
fn chart_skips_empty_categories() {
    assert_eq!(
        resultat(0, 360_000, 180_000).sections_camembert(),
        vec![section(1, 0, 360_000), section(2, 360_000, 180_000)]
    );
    assert_eq!(resultat(360_000, 0, 0).sections_camembert(), vec![section(0, 0, 360_000)]);
}

#[test]
fn chart_of_nothing_is_empty() {
    assert!(resultat(0, 0, 0).sections_camembert().is_empty());
}

#[test]
fn assembled_total_is_sum_of_entries() {
    let app = run(
        "A\tX\t10/06/2025 08:00\t10/06/2025 09:00\nB\tY\t10/06/2025 10:00\t10/06/2025 09:30",
        "",
    );
    let r = app.resultat.as_ref().unwrap();
    let again = gestion_temps::ResultatCalcul::assembler(r.details_hors_clientele.clone(), 5, 7);
    assert_eq!(again.hors_clientele, 360_000 - 180_000);
    assert_eq!(again.travail_clientele, 5);
    assert_eq!(again.deplacement, 7);
}
