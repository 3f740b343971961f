use flowshop::branch_and_bound::{self, BranchAndBoundStats};
use flowshop::common::AlgResult;
use flowshop::johnson_classic;
use flowshop::johnsons;
use flowshop::petrov_sokolicyn;
use flowshop::report::decimal;
use flowshop::{Algorithm, ScheduleError};

fn example() -> Vec<Vec<i32>> {
    vec![vec![5, 2], vec![1, 6], vec![4, 3]]
}

fn three_machines() -> Vec<Vec<i32>> {
    vec![vec![3, 2, 4], vec![1, 5, 2], vec![4, 1, 3]]
}

fn seq_text(sequence: &[usize]) -> String {
    sequence.iter().map(|&idx| format!("J{}", idx + 1)).collect::<Vec<_>>().join(" → ")
}

fn johnson_layout(result: &AlgResult, matrix: &Vec<Vec<i32>>) -> String {
    let mut output = String::new();
    if matrix[0].len() == 2 {
        output.push_str("Оптимальная последовательность:\n");
    } else {
        output.push_str("Последовательность:\n");
    }
    output.push_str(&format!("  {}\n", seq_text(&result.sequence)));
    output.push_str("\nРасписание (вход → выход):\n");
    output.push_str("Работа| ");
    for machine in 0..matrix[0].len() {
        output.push_str(&format!("   M{}  | ", machine + 1));
    }
    output.push_str("\n");
    output.push_str(&"-------+".repeat(matrix[0].len()));
    output.push_str("-\n");
    for (seq_idx, &job_idx) in result.sequence.iter().enumerate() {
        output.push_str(&format!("   J{}    | ", job_idx + 1));
        for machine in 0..matrix[0].len() {
            let (in_time, out_time) = result.schedule[seq_idx][machine];
            output.push_str(&format!(" {:2}→{:2} |", in_time, out_time));
        }
        output.push_str("\n");
    }
    output.push_str(&format!("\nДлительность производственного цикла: {}\n", result.makespan));
    output.push_str("Простои станков:\n");
    for (machine, &idle) in result.idle_times.iter().enumerate() {
        output.push_str(&format!("M{}: {}\n", machine + 1, idle));
    }
    output
}

fn schedule_layout(result: &AlgResult, matrix: &Vec<Vec<i32>>) -> String {
    let mut output = String::new();
    let num_machines = matrix[0].len();
    output.push_str("Расписание (вход → выход):\n");
    output.push_str("Работа | ");
    for machine in 0..num_machines {
        output.push_str(&format!("M{} | ", machine + 1));
    }
    output.push_str("\n");
    output.push_str(&"-------+".repeat(num_machines));
    output.push_str("-\n");
    for (seq_idx, &job_idx) in result.sequence.iter().enumerate() {
        output.push_str(&format!("  J{}   | ", job_idx + 1));
        for machine in 0..num_machines {
            let (in_time, out_time) = result.schedule[seq_idx][machine];
            output.push_str(&format!(" {:2}→{:2} |", in_time, out_time));
        }
        output.push_str("\n");
    }
    output.push_str(&format!("\nДлительность производственного цикла: {}\n", result.makespan));
    output.push_str("Простои станков:\n");
    for (machine, &idle) in result.idle_times.iter().enumerate() {
        output.push_str(&format!("  M{}: {}\n", machine + 1, idle));
    }
    output
}

fn search_layout(result: &AlgResult, stats: &BranchAndBoundStats, matrix: &Vec<Vec<i32>>) -> String {
    let mut output = String::new();
    output.push_str("Статистика поиска:\n");
    output.push_str(&format!("  Исследовано узлов:       {:>10}\n", stats.nodes_explored));
    output.push_str(&format!("  Отсечено узлов:          {:>10}\n", stats.nodes_pruned));
    output.push_str(&format!("  Лучшее решение найдено:  на узле #{}\n", stats.best_found_at_node));
    output.push_str(&format!("  Всего перестановок ({}!): {:>10}\n", matrix.len(), stats.total_permutations));
    output.push_str(&format!(
        "  Эффективность отсечения: {:>9.2}%\n",
        (stats.nodes_pruned as f64 / (stats.nodes_explored + stats.nodes_pruned) as f64) * 100.0
    ));
    output.push_str(&format!("  Время выполнения:        {} мс\n", stats.time_ms));
    output.push_str("\n");
    let optimal = if (stats.nodes_explored as u128) < stats.total_permutations {
        "Гарантированно оптимальное решение (все перспективные варианты исследованы)"
    } else {
        "Решение может быть неоптимальным (достигнуты лимиты поиска)"
    };
    output.push_str(&format!("{}\n\n", optimal));
    output.push_str("Оптимальная последовательность:\n");
    output.push_str(&format!("  {}\n", seq_text(&result.sequence)));
    output.push_str("\n");
    output.push_str(&schedule_layout(result, matrix));
    output
}

#[test]
fn johnson_report_two_machines() {
    let m = example();
    let r = johnsons::algorithm(&m).unwrap();
    let text = johnsons::format_result(&r, &m);
    assert_eq!(text, johnson_layout(&r, &m));
    assert!(text.starts_with("Оптимальная последовательность:\n  J2 → J3 → J1\n"));
    assert!(text.contains("   J2    |   0→ 1 |  1→ 7 |\n"));
    assert!(text.ends_with("M1: 0\nM2: 1\n"));
}

#[test]
fn johnson_report_three_machines() {
    let m = three_machines();
    let r = johnsons::algorithm(&m).unwrap();
    let text = johnson_classic::format_result(&r, &m);
    assert_eq!(text, johnson_layout(&r, &m));
    assert!(text.starts_with("Последовательность:\n"));
}

#[test]
fn johnson_report_wide_times() {
    let m = vec![vec![120, 7], vec![3, 450]];
    let r = johnsons::algorithm(&m).unwrap();
    assert_eq!(johnsons::format_result(&r, &m), johnson_layout(&r, &m));
}

#[test]
fn search_report_layout() {
    let m = three_machines();
    let (r, stats) = branch_and_bound::algorithm(&m, 0, 0).unwrap();
    let stats = BranchAndBoundStats { time_ms: 0, ..stats };
    assert_eq!(branch_and_bound::format_result(&r, &stats, &m), search_layout(&r, &stats, &m));
}

#[test]
fn search_report_fixed_stats() {
    let m = example();
    let (r, _) = branch_and_bound::algorithm(&m, 0, 0).unwrap();
    let stats = BranchAndBoundStats {
        nodes_explored: 7,
        nodes_pruned: 3,
        best_found_at_node: 4,
        total_permutations: 6,
        time_ms: 15,
    };
    let text = branch_and_bound::format_result(&r, &stats, &m);
    assert_eq!(text, search_layout(&r, &stats, &m));
    assert!(text.contains("  Эффективность отсечения:     30.00%\n"));
    assert!(text.contains("Решение может быть неоптимальным"));
    let stats = BranchAndBoundStats { nodes_explored: 2, nodes_pruned: 1, ..stats };
    let text = branch_and_bound::format_result(&r, &stats, &m);
    assert!(text.contains("  Эффективность отсечения:     33.33%\n"));
    assert!(text.contains("Гарантированно оптимальное решение"));
    assert!(stats.is_provably_optimal());
}

#[test]
fn petrov_report_layout() {
    let m = example();
    let r = petrov_sokolicyn::algorithm(&m).unwrap();
    let text = petrov_sokolicyn::format_result(&r, &m);
    let mut expected = String::new();
    expected.push_str("Метрики для каждой работы:\n");
    expected.push_str(&format!("{:<6} | {:<7} | {:<6} | {:<6} | {:<8}\n", "Работа", "Времена", "S1", "S2", "D=S1-S2"));
    expected.push_str(&"-".repeat(60));
    expected.push_str("\n");
    for (idx, row) in m.iter().enumerate() {
        let s1: i32 = row.iter().skip(1).sum();
        let s2: i32 = row.iter().take(1).sum();
        let times = row.iter().map(|t| t.to_string()).collect::<Vec<_>>().join(",");
        expected.push_str(&format!(
            "{:<10} | {:<13} | {:<6} | {:<8} | {:<8}\n",
            format!("J{}", idx + 1),
            times,
            s1,
            s2,
            s1 - s2
        ));
    }
    expected.push_str("\n");
    expected.push_str("Кандидатные последовательности:\n");
    expected.push_str("  1) По убыванию S1: J2 → J3 → J1 → makespan = 12\n");
    expected.push_str("  2) По возрастанию S2: J2 → J3 → J1 → makespan = 12\n");
    expected.push_str("  3) По убыванию D: J2 → J3 → J1 → makespan = 12\n");
    expected.push_str("\n");
    expected.push_str("Выбрана последовательность с минимальным makespan = 12\n\n");
    expected.push_str("Последовательность:\n");
    expected.push_str("  J2 → J3 → J1\n");
    expected.push_str("\n");
    expected.push_str(&schedule_layout(&r, &m));
    assert_eq!(text, expected);
}

#[test]
fn decimal_text() {
    assert_eq!(decimal(0), "0");
    assert_eq!(decimal(-42), "-42");
    assert_eq!(decimal(1234567890123), "1234567890123");
    assert_eq!(decimal(i128::MIN), i128::MIN.to_string());
}

#[test]
fn error_messages() {
    assert_eq!(
        ScheduleError::RaggedRow { row: 1, len: 1, expected: 2 }.message(),
        "Неравномерная матрица: строка 1 имеет 1 элементов, ожидалось 2"
    );
    assert_eq!(
        ScheduleError::NegativeTime { job: 0, machine: 3 }.message(),
        "Отрицательное время обработки в работе 0 на станке 3"
    );
    assert_eq!(ScheduleError::EmptyMatrix.message(), "Матрица пуста");
    assert_eq!(
        ScheduleError::TimeLimitExceeded { limit_ms: 5000, explored: 17 }.message(),
        "Превышено ограничение по времени: > 5000 мс (исследовано 17 узлов)"
    );
}

#[test]
fn algorithm_menu() {
    let all = Algorithm::all();
    assert_eq!(all.len(), 9);
    assert_eq!(all[0], Algorithm::default());
    assert_eq!(all[8], Algorithm::BranchAndBound);
    assert_eq!(Algorithm::PetrovSokolitsyn.label(), "Метод Петрова-Соколицына");
}
